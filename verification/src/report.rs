//! The lines in which results are shown.

use crate::grant::end_of_grant;
use crate::text::{between, decimal, surround, texts, write_decimal};
use vstd::prelude::*;
use vstd::string::*;

verus! {

/// The line for a document, of which `json` is the notation.
pub open spec fn row_line(id: Seq<char>, json: Seq<char>) -> Seq<char> {
    id + "\t"@ + json
}

/// The line for a document.
pub fn document_line(id: &str, json: &str) -> (r: String)
    ensures
        r@ == row_line(id@, json@),
{
    surround(id, "\t", json)
}

/// The lines for the documents that a query found.
pub open spec fn query_report(found: Seq<(String, String)>) -> Seq<Seq<char>> {
    if found.len() == 0 {
        seq!["(no documents)"@]
    } else {
        found.map_values(|row: (String, String)| row_line(row.0@, row.1@))
    }
}

/// The lines for the documents that a query found.
pub fn query_lines(found: &[(String, String)]) -> (r: Vec<String>)
    ensures
        texts(r@) == query_report(found@),
{
    let mut lines: Vec<String> = Vec::new();
    if found.len() == 0 {
        lines.push("(no documents)".to_owned());
    }
    let mut i: usize = 0;
    while i < found.len()
        invariant
            i <= found.len(),
            found.len() > 0 ==> lines@.len() == i,
            found.len() == 0 ==> texts(lines@) == seq!["(no documents)"@],
            forall|j: int| 0 <= j < i ==> (#[trigger] lines@[j])@ == row_line(found@[j].0@, found@[j].1@),
        decreases found.len() - i,
    {
        lines.push(document_line(&found[i].0, &found[i].1));
        i = i + 1;
    }
    assert(texts(lines@) =~= query_report(found@));
    lines
}

/// The lines for some documents, those left out that have no notation.
pub open spec fn notated(docs: Seq<(String, Option<String>)>) -> Seq<Seq<char>>
    decreases docs.len(),
{
    if docs.len() == 0 {
        Seq::empty()
    } else {
        match docs.last().1 {
            Some(json) => notated(docs.drop_last()).push(row_line(docs.last().0@, json@)),
            None => notated(docs.drop_last()),
        }
    }
}

/// The lines for the documents of a snapshot.
pub open spec fn snapshot_report(docs: Seq<(String, Option<String>)>) -> Seq<Seq<char>> {
    if docs.len() == 0 {
        seq!["(empty)"@]
    } else {
        notated(docs)
    }
}

/// The lines for the documents of a snapshot.
pub fn snapshot_lines(docs: &[(String, Option<String>)]) -> (r: Vec<String>)
    ensures
        texts(r@) == snapshot_report(docs@),
{
    let mut lines: Vec<String> = Vec::new();
    if docs.len() == 0 {
        lines.push("(empty)".to_owned());
        assert(texts(lines@) =~= snapshot_report(docs@));
        return lines;
    }
    let mut i: usize = 0;
    assert(texts(lines@) =~= Seq::<Seq<char>>::empty());
    while i < docs.len()
        invariant
            i <= docs.len(),
            texts(lines@) == notated(docs@.take(i as int)),
        decreases docs.len() - i,
    {
        let ghost so_far = lines@;
        let ghost next = docs@.take(i + 1);
        assert(next.drop_last() =~= docs@.take(i as int));
        if let Some(json) = &docs[i].1 {
            lines.push(document_line(&docs[i].0, json));
            assert(texts(lines@) =~= texts(so_far).push(row_line(docs@[i as int].0@, json@)));
        }
        i = i + 1;
    }
    assert(docs@.take(docs@.len() as int) =~= docs@);
    lines
}

/// The line before the first change of a collection that is watched.
pub open spec fn watch_report(collection: Seq<char>, node: Seq<char>) -> Seq<char> {
    between("-- watching '", collection, "' (node ") + node + ") --"@
}

/// The line before the first change of a collection that is watched.
pub fn watch_line(collection: &str, node: &str) -> (r: String)
    ensures
        r@ == watch_report(collection@, node@),
{
    let mut line: String = surround("-- watching '", collection, "' (node ");
    line.append(node);
    line.append(") --");
    line
}

/// The line before a change of a collection that is watched.
pub fn change_line(op_count: usize) -> (r: String)
    ensures
        r@ == between("-- change (op_count=", decimal(op_count as nat), ") --"),
{
    surround("-- change (op_count=", &write_decimal(op_count as u64), ") --")
}

/// The line for what a writer has had applied.
pub open spec fn writer_line(writer: Seq<char>, version: u64) -> Seq<char> {
    between("  writer ", writer, " @ version ") + decimal(version as nat)
}

/// The lines for the state of a collection on a device.
pub open spec fn status_report(
    node: Seq<char>,
    collection: Seq<char>,
    docs: nat,
    writers: Seq<(String, u64)>,
) -> Seq<Seq<char>> {
    seq![
        "node: "@ + node,
        between("collection '", collection, "': ") + decimal(docs) + " docs"@,
    ] + writers.map_values(|w: (String, u64)| writer_line(w.0@, w.1))
}

/// The lines for the state of a collection on a device.
pub fn status_lines(
    node: &str,
    collection: &str,
    docs: usize,
    writers: &[(String, u64)],
) -> (r: Vec<String>)
    ensures
        texts(r@) == status_report(node@, collection@, docs as nat, writers@),
{
    let mut first: String = "node: ".to_owned();
    first.append(node);
    let mut second: String = surround("collection '", collection, "': ");
    second.append(&write_decimal(docs as u64));
    second.append(" docs");
    let mut lines: Vec<String> = Vec::new();
    lines.push(first);
    lines.push(second);
    let mut i: usize = 0;
    while i < writers.len()
        invariant
            i <= writers.len(),
            lines@.len() == i + 2,
            lines@[0]@ == first@,
            lines@[1]@ == second@,
            forall|j: int|
                0 <= j < i ==> (#[trigger] lines@[j + 2])@ == writer_line(writers@[j].0@, writers@[j].1),
        decreases writers.len() - i,
    {
        let mut line: String = surround("  writer ", &writers[i].0, " @ version ");
        line.append(&write_decimal(writers[i].1));
        lines.push(line);
        i = i + 1;
    }
    proof {
        let expected = status_report(node@, collection@, docs as nat, writers@);
        assert forall|k: int| 0 <= k < expected.len() implies texts(lines@)[k] == expected[k] by {
            if k >= 2 {
                assert(lines@[(k - 2) + 2]@ == writer_line(writers@[k - 2].0@, writers@[k - 2].1));
            }
        }
        assert(texts(lines@) =~= expected);
    }
    lines
}

/// How the standard library shows a list of strings for programmers: what `{:?}` makes of it.
pub uninterp spec fn shown(items: Seq<Seq<char>>) -> Seq<char>;

/// The formatting `{:?}` of the standard library on a list of strings. The contract names the
/// text, which depends on the strings alone; the quoting and escaping is left to the standard
/// library.
#[verifier::external_body]
fn show(items: &[String]) -> (r: String)
    ensures
        r@ == shown(texts(items@)),
{
    format!("{:?}", items)
}

/// The lines for a new grant.
pub open spec fn grant_report(
    collection: Seq<char>,
    abilities: Seq<char>,
    audience: Seq<char>,
    token: Seq<char>,
) -> Seq<Seq<char>> {
    seq![
        between("# grant for collection '", collection, "', abilities ") + abilities,
        "# audience "@ + audience,
        "# present this token to gain access:"@,
        token,
    ]
}

/// The lines for a new grant, with its abilities as they are shown.
pub fn grant_lines_showing(collection: &str, abilities: &str, audience: &str, token: &str) -> (r:
    Vec<String>)
    ensures
        texts(r@) == grant_report(collection@, abilities@, audience@, token@),
{
    let mut first: String = surround(
        "# grant for collection '",
        collection,
        "', abilities ",
    );
    first.append(abilities);
    let mut second: String = "# audience ".to_owned();
    second.append(audience);
    let mut lines: Vec<String> = Vec::new();
    lines.push(first);
    lines.push(second);
    lines.push("# present this token to gain access:".to_owned());
    lines.push(token.to_owned());
    assert(texts(lines@) =~= grant_report(collection@, abilities@, audience@, token@));
    lines
}

/// The lines for a new grant.
pub fn grant_lines(collection: &str, abilities: &[String], audience: &str, token: &str) -> (r: Vec<
    String,
>)
    ensures
        texts(r@) == grant_report(collection@, shown(texts(abilities@)), audience@, token@),
{
    grant_lines_showing(collection, &show(abilities), audience, token)
}

/// What a grant says of itself.
#[derive(Debug)]
pub struct GrantInfo {
    /// The collection.
    pub collection: String,
    /// The id of the holder.
    pub holder: Option<String>,
    /// The id of the issuer at the root of its chain.
    pub root: Option<String>,
    /// The abilities at the end of its chain, and when they end: never, which is 0, or at a time
    /// in seconds from the epoch.
    pub leaf: Option<(Vec<String>, u64)>,
    /// The length of its chain.
    pub links: usize,
}

/// A line with a label, where there is something to say.
pub open spec fn labelled(label: &str, text: Option<Seq<char>>) -> Seq<Seq<char>> {
    match text {
        Some(text) => seq![label@ + text],
        None => Seq::empty(),
    }
}

/// What an optional text is.
pub open spec fn said(text: Option<String>) -> Option<Seq<char>> {
    match text {
        Some(text) => Some(text@),
        None => None,
    }
}

/// When a grant ends.
pub open spec fn end_shown(not_after: u64) -> Seq<char> {
    if not_after == 0 {
        "expires:    never"@
    } else {
        "expires:    unix "@ + decimal(not_after as nat)
    }
}

/// The lines for a grant. `abilities` is how its abilities are shown.
pub open spec fn inspect_report(info: GrantInfo, abilities: Seq<char>) -> Seq<Seq<char>> {
    seq!["collection: "@ + info.collection@] + labelled("holder:     ", said(info.holder))
        + labelled("root:       ", said(info.root)) + (match info.leaf {
        Some((_, not_after)) => seq!["abilities:  "@ + abilities, end_shown(not_after)],
        None => Seq::empty(),
    }) + seq!["chain links: "@ + decimal(info.links as nat)]
}

/// Puts the name of a thing before it.
fn label(name: &str, text: &str) -> (r: String)
    ensures
        r@ == name@ + text@,
{
    let mut line: String = name.to_owned();
    line.append(text);
    line
}

/// The lines for a grant, with its abilities as they are shown.
pub fn inspect_lines_showing(info: &GrantInfo, abilities: &str) -> (r: Vec<String>)
    ensures
        texts(r@) == inspect_report(*info, abilities@),
{
    let mut lines: Vec<String> = Vec::new();
    lines.push(label("collection: ", &info.collection));
    let ghost one = seq!["collection: "@ + info.collection@];
    assert(texts(lines@) =~= one);
    if let Some(holder) = &info.holder {
        lines.push(label("holder:     ", holder));
    }
    let ghost two = one + labelled("holder:     ", said(info.holder));
    assert(texts(lines@) =~= two);
    if let Some(root) = &info.root {
        lines.push(label("root:       ", root));
    }
    let ghost three = two + labelled("root:       ", said(info.root));
    assert(texts(lines@) =~= three);
    if let Some((_, not_after)) = &info.leaf {
        lines.push(label("abilities:  ", abilities));
        if *not_after != 0 {
            lines.push(label("expires:    unix ", &write_decimal(*not_after)));
        } else {
            lines.push("expires:    never".to_owned());
        }
    }
    lines.push(label("chain links: ", &write_decimal(info.links as u64)));
    assert(texts(lines@) =~= inspect_report(*info, abilities@));
    lines
}

/// The lines for a grant.
pub fn inspect_lines(info: &GrantInfo) -> (r: Vec<String>)
    ensures
        texts(r@) == inspect_report(
            *info,
            shown(
                match info.leaf {
                    Some((abilities, _)) => texts(abilities@),
                    None => Seq::empty(),
                },
            ),
        ),
{
    match &info.leaf {
        Some((abilities, _)) => inspect_lines_showing(info, &show(abilities.as_slice())),
        None => inspect_lines_showing(info, ""),
    }
}

/// What is shown of a grant that has a holder, a root and abilities, and that was made to last
/// some seconds, or forever where that is 0.
pub proof fn a_grant_shows_its_terms(
    info: GrantInfo,
    abilities: Seq<char>,
    now: u64,
    expires: u64,
)
    requires
        info.holder is Some,
        info.root is Some,
        info.leaf is Some,
        (info.leaf->0).1 == end_of_grant(now, expires),
    ensures
        inspect_report(info, abilities) == seq![
            "collection: "@ + info.collection@,
            "holder:     "@ + (info.holder->0)@,
            "root:       "@ + (info.root->0)@,
            "abilities:  "@ + abilities,
            if expires == 0 {
                "expires:    never"@
            } else {
                "expires:    unix "@ + decimal((now + expires) as nat)
            },
            "chain links: "@ + decimal(info.links as nat),
        ],
{
}

} // verus!
