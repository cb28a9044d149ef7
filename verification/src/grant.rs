//! The terms of a grant: what its holder may do with a collection, and until when.

use crate::error::{Error, Refusal};
use crate::text::{same_text, split, split_every, texts, trim, trimmed};
use vstd::prelude::*;

verus! {

/// The ability to read documents.
pub const ABILITY_READ: &'static str = "db:read";

/// The ability to write documents.
pub const ABILITY_WRITE: &'static str = "db:write";

/// The ability to administer a collection.
pub const ABILITY_ADMIN: &'static str = "db:admin";

/// Is there an ability with this name?
pub open spec fn is_ability(name: Seq<char>) -> bool {
    name == ABILITY_READ@ || name == ABILITY_WRITE@ || name == ABILITY_ADMIN@
}

/// The first name of no ability.
pub open spec fn first_unknown(names: Seq<Seq<char>>) -> Option<Seq<char>>
    decreases names.len(),
{
    if names.len() == 0 {
        None
    } else if !is_ability(names[0]) {
        Some(names[0])
    } else {
        first_unknown(names.drop_first())
    }
}

/// Why abilities are refused: one of them does not exist, or there are none.
pub open spec fn refusal_of(names: Seq<Seq<char>>) -> Option<Refusal> {
    match first_unknown(names) {
        Some(name) => Some(Refusal::UnknownAbility(name)),
        None => if names.len() == 0 {
            Some(Refusal::NoAbility)
        } else {
            None
        },
    }
}

/// Abilities are accepted exactly where there are some and all of them exist.
pub proof fn accepted_abilities_exist(names: Seq<Seq<char>>)
    ensures
        refusal_of(names) is None <==> names.len() > 0 && forall|i: int|
            0 <= i < names.len() ==> is_ability(#[trigger] names[i]),
{
    unknown_is_found(names);
}

/// A name of no ability is found exactly where there is one.
proof fn unknown_is_found(names: Seq<Seq<char>>)
    ensures
        first_unknown(names) is None <==> forall|i: int|
            0 <= i < names.len() ==> is_ability(#[trigger] names[i]),
    decreases names.len(),
{
    if names.len() > 0 {
        let rest = names.drop_first();
        unknown_is_found(rest);
        assert forall|i: int| 0 <= i < rest.len() implies rest[i] == #[trigger] names[i + 1] by {}
        if first_unknown(names) is None {
            assert forall|i: int| 0 <= i < names.len() implies is_ability(#[trigger] names[i]) by {
                if i > 0 {
                    assert(rest[i - 1] == names[i]);
                }
            }
        }
        if forall|i: int| 0 <= i < names.len() ==> is_ability(#[trigger] names[i]) {
            assert forall|i: int| 0 <= i < rest.len() implies is_ability(#[trigger] rest[i]) by {
                assert(is_ability(names[i + 1]));
            }
        }
    }
}

/// Checks that there are abilities, and that all of them exist.
pub fn validate_abilities(abilities: &[&str]) -> (r: Result<(), Error>)
    ensures
        match r {
            Ok(()) => refusal_of(abilities@.map_values(|a: &str| a@)) is None,
            Err(error) => refusal_of(abilities@.map_values(|a: &str| a@)) == Some(error@),
        },
{
    let ghost names = abilities@.map_values(|a: &str| a@);
    let mut i: usize = 0;
    assert(names.skip(0) =~= names);
    while i < abilities.len()
        invariant
            names == abilities@.map_values(|a: &str| a@),
            i <= abilities.len(),
            first_unknown(names) == first_unknown(names.skip(i as int)),
        decreases abilities.len() - i,
    {
        let ability: &str = abilities[i];
        assert(names.skip(i as int)[0] == ability@);
        assert(names.skip(i as int).drop_first() =~= names.skip(i + 1));
        if !(same_text(ability, ABILITY_READ) || same_text(ability, ABILITY_WRITE) || same_text(
            ability,
            ABILITY_ADMIN,
        )) {
            return Err(Error::UnknownAbility(ability.to_owned()));
        }
        i = i + 1;
    }
    if abilities.len() == 0 {
        return Err(Error::NoAbility);
    }
    Ok(())
}

/// The abilities in a list separated by commas: without the white space around them, and without
/// those that are empty.
pub open spec fn abilities_in(text: Seq<char>) -> Seq<Seq<char>> {
    split_every(text, ',').map_values(|part: Seq<char>| trimmed(part)).filter(
        |name: Seq<char>| name.len() > 0,
    )
}

/// Takes a list of abilities apart.
pub fn parse_abilities(text: &str) -> (r: Vec<String>)
    ensures
        texts(r@) == abilities_in(text@),
{
    let parts: Vec<String> = split(text, ',');
    let ghost all = split_every(text@, ',').map_values(|part: Seq<char>| trimmed(part));
    let ghost named = |name: Seq<char>| name.len() > 0;
    let mut out: Vec<String> = Vec::new();
    let mut i: usize = 0;
    proof {
        reveal_strlit("");
        reveal(Seq::filter);
        assert(all.take(0) =~= Seq::<Seq<char>>::empty());
        assert(texts(out@) =~= Seq::<Seq<char>>::empty());
    }
    while i < parts.len()
        invariant
            texts(parts@) == split_every(text@, ','),
            all == split_every(text@, ',').map_values(|part: Seq<char>| trimmed(part)),
            named == (|name: Seq<char>| name.len() > 0),
            i <= parts.len(),
            ""@.len() == 0,
            texts(out@) == all.take(i as int).filter(named),
        decreases parts.len() - i,
    {
        let name: String = trim(&parts[i]);
        let ghost so_far = out@;
        proof {
            assert(split_every(text@, ',')[i as int] == parts@[i as int]@);
            assert(all[i as int] == name@);
            assert(all.take(i + 1) =~= all.take(i as int).push(name@));
            all.take(i as int).lemma_filter_push(name@, named);
            assert(name@.len() == 0 ==> name@ =~= ""@);
        }
        if !same_text(&name, "") {
            out.push(name);
            assert(texts(out@) =~= texts(so_far).push(name@));
        }
        i = i + 1;
    }
    assert(parts@.len() == texts(parts@).len());
    assert(all.take(all.len() as int) =~= all);
    out
}

/// Takes a list of abilities apart and checks it.
pub fn read_abilities(text: &str) -> (r: Result<Vec<String>, Error>)
    ensures
        match r {
            Ok(abilities) => refusal_of(abilities_in(text@)) is None && texts(abilities@)
                == abilities_in(text@),
            Err(error) => refusal_of(abilities_in(text@)) == Some(error@),
        },
{
    let abilities: Vec<String> = parse_abilities(text);
    let mut names: Vec<&str> = Vec::new();
    let mut i: usize = 0;
    while i < abilities.len()
        invariant
            i <= abilities.len(),
            names@.len() == i,
            forall|j: int| 0 <= j < i ==> (#[trigger] names@[j])@ == abilities@[j]@,
        decreases abilities.len() - i,
    {
        names.push(abilities[i].as_str());
        i = i + 1;
    }
    assert(names@.map_values(|a: &str| a@) =~= texts(abilities@));
    match validate_abilities(names.as_slice()) {
        Ok(()) => Ok(abilities),
        Err(error) => Err(error),
    }
}

/// When a grant ends: never, which is 0, or some seconds from now.
pub open spec fn end_of_grant(now: u64, expires: u64) -> int {
    if expires == 0 {
        0
    } else {
        now + expires
    }
}

/// When a grant ends that lasts some seconds from now, or forever where that is 0.
pub fn not_after(now: u64, expires: u64) -> (r: u64)
    requires
        now + expires <= u64::MAX,
    ensures
        r == end_of_grant(now, expires),
{
    if expires == 0 {
        0
    } else {
        now + expires
    }
}

/// A point in time, as the standard library has it.
#[verifier::external_type_specification]
#[verifier::external_body]
pub struct ExSystemTime(std::time::SystemTime);

/// The standard library's refusal to measure back from an earlier point in time.
#[verifier::external_type_specification]
#[verifier::external_body]
pub struct ExSystemTimeError(std::time::SystemTimeError);

/// `SystemTime::now` of the standard library. What the clock reads is not stated.
pub assume_specification[ std::time::SystemTime::now ]() -> std::time::SystemTime;

/// `SystemTime::duration_since` of the standard library, from the epoch. It fails where the point
/// in time lies before the epoch. Points in time are opaque, so that nothing is stated.
#[verifier::external_body]
fn since_epoch(time: std::time::SystemTime) -> Result<
    std::time::Duration,
    std::time::SystemTimeError,
> {
    time.duration_since(std::time::UNIX_EPOCH)
}

/// `Duration::as_secs` of the standard library. Durations are opaque, so that nothing is stated.
pub assume_specification[ std::time::Duration::as_secs ](duration: &std::time::Duration) -> u64;

/// The seconds from the epoch to now, or 0 where the clock stands before the epoch.
pub fn now() -> u64 {
    match since_epoch(std::time::SystemTime::now()) {
        Ok(duration) => seconds_or_zero(Some(duration.as_secs())),
        Err(_) => seconds_or_zero(None),
    }
}

/// The seconds that a clock reads, or 0 where it reads a time before the epoch.
pub fn seconds_or_zero(reading: Option<u64>) -> (r: u64)
    ensures
        r == match reading {
            Some(seconds) => seconds,
            None => 0,
        },
{
    match reading {
        Some(seconds) => seconds,
        None => 0,
    }
}

} // verus!
