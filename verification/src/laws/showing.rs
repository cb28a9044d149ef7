//! What the lines of a command line say.

use crate::error::{Error, Refusal};
use crate::report::{
    end_shown, grant_report, inspect_report, labelled, notated, query_report, row_line, said,
    snapshot_report, status_report, watch_report, writer_line, GrantInfo,
};
use crate::text::decimal;
use vstd::prelude::*;

verus! {

/// The line for a document is its id and its notation, with a tab between them.
pub proof fn a_line_is_id_and_notation(id: Seq<char>, json: Seq<char>)
    ensures
        row_line(id, json) == id + "\t"@ + json,
{
}

/// A query shows a line for each document that it found, in their order, and says so where it
/// found none.
pub proof fn a_query_shows_what_it_found(found: Seq<(String, String)>)
    ensures
        found.len() == 0 ==> query_report(found) == seq!["(no documents)"@],
        found.len() > 0 ==> query_report(found).len() == found.len(),
        forall|i: int|
            0 <= i < found.len() ==> (#[trigger] query_report(found)[i]) == found[i].0@ + "\t"@
                + found[i].1@,
{
}

/// A snapshot shows a line for each document that has a notation, in their order, and says so
/// where it holds none.
pub proof fn a_snapshot_shows_what_it_holds(
    docs: Seq<(String, Option<String>)>,
    id: String,
    json: Option<String>,
)
    ensures
        snapshot_report(Seq::empty()) == seq!["(empty)"@],
        ({
            let before = if docs.len() == 0 {
                Seq::empty()
            } else {
                snapshot_report(docs)
            };
            snapshot_report(docs.push((id, json))) == match json {
                Some(text) => before.push(id@ + "\t"@ + text@),
                None => before,
            }
        }),
{
    let more = docs.push((id, json));
    assert(more.drop_last() =~= docs);
    assert(more.last() == (id, json));
    if docs.len() == 0 {
        assert(notated(docs) =~= Seq::empty());
    }
}

/// The line before the first change names the collection and the node.
pub proof fn watching_names_the_collection_and_the_node(collection: Seq<char>, node: Seq<char>)
    ensures
        watch_report(collection, node) == "-- watching '"@ + collection + "' (node "@ + node
            + ") --"@,
{
}

/// The status names the node, the collection with the number of its documents, and each writer
/// with its version.
pub proof fn the_status_names_every_writer(
    node: Seq<char>,
    collection: Seq<char>,
    docs: nat,
    writers: Seq<(String, u64)>,
)
    ensures
        ({
            let lines = status_report(node, collection, docs, writers);
            &&& lines.len() == writers.len() + 2
            &&& lines[0] == "node: "@ + node
            &&& lines[1] == "collection '"@ + collection + "': "@ + decimal(docs) + " docs"@
            &&& forall|i: int|
                0 <= i < writers.len() ==> (#[trigger] lines[i + 2]) == "  writer "@
                    + writers[i].0@ + " @ version "@ + decimal(writers[i].1 as nat)
        }),
{
    let lines = status_report(node, collection, docs, writers);
    assert forall|i: int| 0 <= i < writers.len() implies (#[trigger] lines[i + 2]) == "  writer "@
        + writers[i].0@ + " @ version "@ + decimal(writers[i].1 as nat) by {
        assert(lines[i + 2] == writer_line(writers[i].0@, writers[i].1));
    }
}

/// A new grant shows its collection, its abilities, its audience and its token.
pub proof fn a_new_grant_shows_its_token(
    collection: Seq<char>,
    abilities: Seq<char>,
    audience: Seq<char>,
    token: Seq<char>,
)
    ensures
        ({
            let lines = grant_report(collection, abilities, audience, token);
            &&& lines.len() == 4
            &&& lines[0] == "# grant for collection '"@ + collection + "', abilities "@ + abilities
            &&& lines[1] == "# audience "@ + audience
            &&& lines[2] == "# present this token to gain access:"@
            &&& lines[3] == token
        }),
{
}

/// An inspected grant shows its collection, its holder and its root where it has them, its
/// abilities and its end where it has them, and the length of its chain.
pub proof fn an_inspected_grant_shows_what_it_has(info: GrantInfo, abilities: Seq<char>)
    ensures
        ({
            let first = seq!["collection: "@ + info.collection@];
            let second = match info.holder {
                Some(holder) => first.push("holder:     "@ + holder@),
                None => first,
            };
            let third = match info.root {
                Some(root) => second.push("root:       "@ + root@),
                None => second,
            };
            let fourth = match info.leaf {
                Some((_, not_after)) => third.push("abilities:  "@ + abilities).push(
                    if not_after == 0 {
                        "expires:    never"@
                    } else {
                        "expires:    unix "@ + decimal(not_after as nat)
                    },
                ),
                None => third,
            };
            inspect_report(info, abilities) == fourth.push(
                "chain links: "@ + decimal(info.links as nat),
            )
        }),
{
    let first = seq!["collection: "@ + info.collection@];
    let second = match info.holder {
        Some(holder) => first.push("holder:     "@ + holder@),
        None => first,
    };
    let third = match info.root {
        Some(root) => second.push("root:       "@ + root@),
        None => second,
    };
    assert(first + labelled("holder:     ", said(info.holder)) =~= second);
    assert(second + labelled("root:       ", said(info.root)) =~= third);
    let fourth = match info.leaf {
        Some((_, not_after)) => third.push("abilities:  "@ + abilities).push(end_shown(not_after)),
        None => third,
    };
    assert(inspect_report(info, abilities) =~= fourth.push(
        "chain links: "@ + decimal(info.links as nat),
    ));
}

/// An error is refused as what it is, with what it holds.
pub proof fn an_error_is_its_refusal(text: String)
    ensures
        Error::BadFilter(text)@ == Refusal::BadFilter(text@),
        Error::UnknownFilterOp(text)@ == Refusal::UnknownFilterOp(text@),
        Error::BadOrder@ == Refusal::BadOrder,
        Error::UnknownDirection(text)@ == Refusal::UnknownDirection(text@),
        Error::InvalidJson(text)@ == Refusal::InvalidJson(text@),
        Error::NotAnObject@ == Refusal::NotAnObject,
        Error::NotADocument@ == Refusal::NotADocument,
        Error::UnknownAbility(text)@ == Refusal::UnknownAbility(text@),
        Error::NoAbility@ == Refusal::NoAbility,
        Error::NoDataDir@ == Refusal::NoDataDir,
        Error::BadPath(text)@ == Refusal::BadPath(text@),
{
}

/// The words for a refusal name what was refused.
pub proof fn the_words_name_what_was_refused(text: Seq<char>)
    ensures
        Refusal::BadFilter(text).words() == "--where must be 'field:op:value', got '"@ + text
            + "'"@,
        Refusal::UnknownFilterOp(text).words() == "unknown filter op '"@ + text
            + "' (eq|ne|gt|ge|lt|le|contains)"@,
        Refusal::BadOrder.words() == "--order must be 'field:asc' or 'field:desc'"@,
        Refusal::UnknownDirection(text).words() == "unknown order direction '"@ + text
            + "' (use asc|desc)"@,
        Refusal::InvalidJson(text).words() == "document must be valid JSON"@,
        Refusal::NotAnObject.words()
            == "document must be a JSON object, e.g. '{\"name\":\"x\"}'"@,
        Refusal::NotADocument.words() == "document must serialize to a JSON object"@,
        Refusal::UnknownAbility(text).words() == "unknown ability '"@ + text
            + "' (use db:read, db:write, db:admin)"@,
        Refusal::NoAbility.words() == "at least one ability is required"@,
        Refusal::NoDataDir.words() == "could not resolve a platform data dir; set CE_DATA_DIR"@,
        Refusal::BadPath(text).words() == "path must be 'collection/doc_id', got '"@ + text + "'"@,
{
}

} // verus!
