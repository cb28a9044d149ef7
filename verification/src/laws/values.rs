//! What strings, numbers and values mean.

use crate::json::{fields, json_eq, Document, Fields, Json, Value};
use crate::map::ascending;
use crate::number::{
    exponent_step, magnitude, number_eq, number_order, number_value, sign_bit, Number,
};
use crate::text::{
    between, decimal, is_white_space, occurs_in, position_is_first, split_every, split_first,
    split_first_finds, text_lt, text_lt_asymmetric, text_lt_irreflexive, text_lt_total, text_order,
    texts, trim_end, trim_start, trimmed, Order,
};
use vstd::arithmetic::div_mod::*;
use vstd::arithmetic::mul::*;
use vstd::arithmetic::power2::*;
use vstd::prelude::*;

verus! {

/// The first character in which two strings differ decides which of them comes first.
pub proof fn first_difference_decides(
    prefix: Seq<char>,
    x: char,
    y: char,
    s: Seq<char>,
    t: Seq<char>,
)
    requires
        x < y,
    ensures
        text_lt(prefix.push(x) + s, prefix.push(y) + t),
        !text_lt(prefix.push(y) + t, prefix.push(x) + s),
    decreases prefix.len(),
{
    let a = prefix.push(x) + s;
    let b = prefix.push(y) + t;
    if prefix.len() == 0 {
        assert(a[0] == x && b[0] == y);
    } else {
        let rest = prefix.drop_first();
        first_difference_decides(rest, x, y, s, t);
        assert(a.drop_first() =~= rest.push(x) + s);
        assert(b.drop_first() =~= rest.push(y) + t);
        assert(a[0] == b[0]);
    }
}

/// A string comes before every longer string that starts with it, and never before itself.
pub proof fn a_prefix_comes_first(prefix: Seq<char>, more: Seq<char>)
    requires
        more.len() > 0,
    ensures
        text_lt(prefix, prefix + more),
        !text_lt(prefix + more, prefix),
        !text_lt(prefix, prefix),
    decreases prefix.len(),
{
    if prefix.len() > 0 {
        a_prefix_comes_first(prefix.drop_first(), more);
        assert((prefix + more).drop_first() =~= prefix.drop_first() + more);
    }
    text_lt_irreflexive(prefix);
}

/// Strings compare equal where they are the same, and else as they come one before the other.
pub proof fn strings_compare_lexically(a: Seq<char>, b: Seq<char>)
    ensures
        text_order(a, b) == Order::Equal <==> a == b,
        text_order(a, b) == Order::Less <==> text_lt(a, b),
        text_order(a, b) == Order::Greater <==> text_lt(b, a),
{
    text_lt_irreflexive(a);
    if a != b {
        text_lt_total(a, b);
        if text_lt(a, b) {
            text_lt_asymmetric(a, b);
        }
    }
}

/// Turning a comparison round exchanges before and after.
pub proof fn flipping_exchanges_the_ends()
    ensures
        Order::Less.flipped() == Order::Greater,
        Order::Equal.flipped() == Order::Equal,
        Order::Greater.flipped() == Order::Less,
{
}

/// A string occurs in another exactly where the other is it with something before and after it.
pub proof fn substrings_have_two_sides(needle: Seq<char>, hay: Seq<char>)
    ensures
        occurs_in(needle, hay) <==> exists|before: Seq<char>, after: Seq<char>|
            hay == #[trigger] (before + needle + after),
{
    if occurs_in(needle, hay) {
        let i = choose|i: int|
            0 <= i <= hay.len() - needle.len() && #[trigger] hay.subrange(i, i + needle.len())
                == needle;
        let before = hay.take(i);
        let after = hay.skip(i + needle.len());
        assert(hay =~= before + needle + after) by {
            assert forall|k: int| 0 <= k < hay.len() implies hay[k] == (before + needle + after)[k] by {
                if i <= k < i + needle.len() {
                    assert(hay.subrange(i, i + needle.len())[k - i] == hay[k]);
                }
            }
        }
    }
    if exists|before: Seq<char>, after: Seq<char>| hay == #[trigger] (before + needle + after) {
        let (before, after) = choose|before: Seq<char>, after: Seq<char>|
            hay == #[trigger] (before + needle + after);
        let i = before.len() as int;
        assert(hay.subrange(i, i + needle.len()) =~= needle);
    }
}

/// A string splits at its first separator, and not at all without one.
pub proof fn splitting_is_at_the_first_separator(before: Seq<char>, sep: char, after: Seq<char>)
    requires
        !before.contains(sep),
    ensures
        split_first(before.push(sep) + after, sep) == Some((before, after)),
        split_first(before, sep) is None,
        split_every(before.push(sep) + after, sep) == seq![before] + split_every(after, sep),
        split_every(before, sep) == seq![before],
{
    split_first_finds(before, sep, after);
    position_is_first(before, sep);
    position_is_first(before.push(sep) + after, sep);
    let s = before.push(sep) + after;
    let i = crate::text::position(s, sep);
    if i < before.len() {
        assert(before[i] == sep);
    }
    assert(s[before.len() as int] == sep);
    assert(s.take(before.len() as int) =~= before);
    assert(s.skip(before.len() as int + 1) =~= after);
}

/// The white space around a text that has none at its ends is taken off, and nothing else.
pub proof fn trimming_takes_off_white_space(left: Seq<char>, core: Seq<char>, right: Seq<char>)
    requires
        forall|i: int| 0 <= i < left.len() ==> is_white_space(#[trigger] left[i]),
        forall|i: int| 0 <= i < right.len() ==> is_white_space(#[trigger] right[i]),
        core.len() > 0 ==> !is_white_space(core[0]) && !is_white_space(core.last()),
    ensures
        trimmed(left + core + right) == core,
{
    start_is_taken_off(left, core + right);
    assert(left + core + right =~= left + (core + right));
    if core.len() == 0 {
        assert(core + right =~= right);
        assert(right + Seq::empty() =~= right);
        start_is_taken_off(right, Seq::empty());
        assert(trim_start(core + right) =~= core);
    } else {
        assert((core + right)[0] == core[0]);
        end_is_taken_off(core, right);
    }
}

proof fn start_is_taken_off(left: Seq<char>, rest: Seq<char>)
    requires
        forall|i: int| 0 <= i < left.len() ==> is_white_space(#[trigger] left[i]),
    ensures
        trim_start(left + rest) == trim_start(rest),
    decreases left.len(),
{
    if left.len() == 0 {
        assert(left + rest =~= rest);
    } else {
        let less = left.drop_first();
        assert forall|i: int| 0 <= i < less.len() implies is_white_space(#[trigger] less[i]) by {
            assert(less[i] == left[i + 1]);
        }
        start_is_taken_off(less, rest);
        assert((left + rest)[0] == left[0]);
        assert((left + rest).drop_first() =~= less + rest);
    }
}

proof fn end_is_taken_off(core: Seq<char>, right: Seq<char>)
    requires
        forall|i: int| 0 <= i < right.len() ==> is_white_space(#[trigger] right[i]),
        core.len() > 0,
        !is_white_space(core.last()),
    ensures
        trim_end(core + right) == core,
    decreases right.len(),
{
    if right.len() == 0 {
        assert(core + right =~= core);
    } else {
        let less = right.drop_last();
        assert forall|i: int| 0 <= i < less.len() implies is_white_space(#[trigger] less[i]) by {
            assert(less[i] == right[i]);
        }
        end_is_taken_off(core, less);
        assert((core + right).last() == right[right.len() - 1]);
        assert((core + right).drop_last() =~= core + less);
    }
}

/// Decimal notation: a number below ten is one digit, and one more digit at the end is that digit
/// added to ten times the number.
pub proof fn decimal_notation_is_positional(n: nat, d: nat)
    requires
        d < 10,
    ensures
        decimal(d) == seq!["0123456789"@[d as int]],
        n > 0 ==> decimal(10 * n + d) == decimal(n).push("0123456789"@[d as int]),
{
    if n > 0 {
        assert((10 * n + d) / 10 == n && (10 * n + d) % 10 == d) by (nonlinear_arith)
            requires
                d < 10,
        ;
    }
}

/// A text between two others follows the one and precedes the other.
pub proof fn between_is_in_the_middle(before: &str, text: Seq<char>, after: &str)
    ensures
        between(before, text, after) == before@ + text + after@,
{
}

/// What lines say is what each of them says.
pub proof fn lines_say_what_each_says(lines: Seq<String>)
    ensures
        texts(lines).len() == lines.len(),
        forall|i: int| 0 <= i < lines.len() ==> (#[trigger] texts(lines)[i]) == lines[i]@,
{
}

/// The value of an integer is the integer, in the units in which values are counted.
pub proof fn integers_are_their_value(i: i128)
    ensures
        number_value(Number::Int(i)) == i * pow2(1074),
{
}

/// The smallest doubles count units by their bits.
pub proof fn small_doubles_count_units(bits: u64)
    requires
        bits < 0x20_0000_0000_0000,
    ensures
        number_value(Number::Float(bits)) == bits,
{
    lemma2_to64();
    if bits >= 0x10_0000_0000_0000 {
        assert(bits as nat / exponent_step() == 1);
        assert(bits as nat % exponent_step() == bits - 0x10_0000_0000_0000);
        assert(magnitude(bits as nat) == bits * pow2(0));
        assert(bits * 1 == bits);
    } else {
        assert(bits as nat / exponent_step() == 0);
        assert(bits as nat % exponent_step() == bits);
    }
}

/// The next higher exponent doubles a double.
pub proof fn the_next_exponent_doubles(bits: u64)
    requires
        0x10_0000_0000_0000 <= bits < 0x7ff0_0000_0000_0000,
    ensures
        number_value(Number::Float((bits + 0x10_0000_0000_0000) as u64)) == 2 * number_value(
            Number::Float(bits),
        ),
{
    let d = exponent_step();
    let b = bits as nat;
    let e = b / d;
    let f = b % d;
    lemma_fundamental_div_mod(b as int, d as int);
    lemma_fundamental_div_mod((b + d) as int, d as int);
    lemma_div_is_ordered(d as int, b as int, d as int);
    assert((b + d) / d == e + 1 && (b + d) % d == f) by {
        lemma_fundamental_div_mod_converse((b + d) as int, d as int, (e + 1) as int, f as int);
    }
    lemma_pow2_unfold(e);
    let s = (d + f) as int;
    let p = pow2((e - 1) as nat) as int;
    assert(s * (2 * p) == 2 * (s * p)) by (nonlinear_arith);
}

/// The sign bit negates a double.
pub proof fn the_sign_bit_negates(bits: u64)
    requires
        bits < 0x8000_0000_0000_0000,
    ensures
        number_value(Number::Float((bits + 0x8000_0000_0000_0000) as u64)) == -number_value(
            Number::Float(bits),
        ),
{
}

/// Numbers compare as their values do.
pub proof fn numbers_compare_by_value(a: Number, b: Number)
    ensures
        number_order(a, b) == Order::Less <==> number_value(a) < number_value(b),
        number_order(a, b) == Order::Equal <==> number_value(a) == number_value(b),
        number_order(a, b) == Order::Greater <==> number_value(a) > number_value(b),
{
}

/// Integers are equal where they are the same, doubles where their values are, and an integer
/// equals no double.
pub proof fn numbers_are_equal_by_value(x: i128, y: i128, a: u64, b: u64)
    ensures
        number_eq(Number::Int(x), Number::Int(y)) <==> x == y,
        number_eq(Number::Float(a), Number::Float(b)) <==> number_value(Number::Float(a))
            == number_value(Number::Float(b)),
        !number_eq(Number::Int(x), Number::Float(a)),
        !number_eq(Number::Float(a), Number::Int(x)),
{
    let p: nat = if a < sign_bit() {
        a as nat
    } else {
        (a - sign_bit()) as nat
    };
    let q: nat = if b < sign_bit() {
        b as nat
    } else {
        (b - sign_bit()) as nat
    };
    crate::number::magnitudes_are_ordered(p, q);
    crate::number::magnitudes_are_ordered(q, p);
    crate::number::magnitudes_are_ordered(0, p);
    crate::number::magnitudes_are_ordered(0, q);
    assert(magnitude(0) == 0);
}

/// Values are equal by their parts. A value equals none of another type.
pub proof fn values_are_equal_by_their_parts(
    x: Seq<Json>,
    y: Seq<Json>,
    p: Fields,
    q: Fields,
    s: Seq<char>,
    t: Seq<char>,
    a: bool,
    b: bool,
    m: Number,
    n: Number,
)
    ensures
        json_eq(Json::Array(x), Json::Array(y)) <==> x.len() == y.len() && forall|i: int|
            0 <= i < x.len() ==> json_eq(#[trigger] x[i], y[i]),
        json_eq(Json::Object(p), Json::Object(q)) <==> p.dom() == q.dom() && forall|k: Seq<char>|
            #[trigger]
            p.contains_key(k) ==> json_eq(p[k], q[k]),
        json_eq(Json::String(s), Json::String(t)) <==> s == t,
        json_eq(Json::Bool(a), Json::Bool(b)) <==> a == b,
        json_eq(Json::Number(m), Json::Number(n)) <==> number_eq(m, n),
        json_eq(Json::Null, Json::Null),
{
    let u = Json::Object(p);
    if json_eq(u, Json::Object(q)) {
        assert forall|k: Seq<char>| #[trigger] p.contains_key(k) implies json_eq(p[k], q[k]) by {
            assert(u->Object_0.contains_key(k));
        }
    }
}

/// Equal values are of one type.
pub proof fn equal_values_are_of_one_type(a: Json, b: Json)
    requires
        json_eq(a, b),
    ensures
        a is Null <==> b is Null,
        a is Bool <==> b is Bool,
        a is Number <==> b is Number,
        a is String <==> b is String,
        a is Array <==> b is Array,
        a is Object <==> b is Object,
{
}

/// The fields of a document are the values of its entries.
pub proof fn fields_are_the_values(doc: Document)
    ensures
        forall|name: Seq<char>| #[trigger]
            fields(doc).contains_key(name) <==> doc@.contains_key(name),
        forall|name: Seq<char>| #[trigger]
            doc@.contains_key(name) ==> fields(doc)[name] == doc@[name]@,
{
}

/// `==` of values and of numbers asks whether they are equal.
pub proof fn the_operator_asks_for_equality(a: Value, b: Value, x: Number, y: Number)
    ensures
        vstd::std_specs::cmp::PartialEqSpec::eq_spec(&a, &b) <==> json_eq(a@, b@),
        vstd::std_specs::cmp::PartialEqSpec::eq_spec(&x, &y) <==> number_eq(x, y),
{
}

/// Keys ascend where each comes before all that follow.
pub proof fn ascending_keys_rise(keys: Seq<Seq<char>>)
    ensures
        ascending(keys) <==> forall|i: int, j: int|
            0 <= i < j < keys.len() ==> text_lt(#[trigger] keys[i], #[trigger] keys[j]),
{
}

/// White space is the characters of the Unicode property `White_Space`.
pub proof fn white_space_is_these_characters(c: char)
    ensures
        is_white_space(c) <==> 0x9 <= c as u32 <= 0xd || c as u32 == 0x20 || c as u32 == 0x85
            || c as u32 == 0xa0 || c as u32 == 0x1680 || 0x2000 <= c as u32 <= 0x200a || c as u32
            == 0x2028 || c as u32 == 0x2029 || c as u32 == 0x202f || c as u32 == 0x205f || c as u32
            == 0x3000,
{
}

} // verus!
