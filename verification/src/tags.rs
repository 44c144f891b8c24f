//! The tag store: replies to the tag commands.

use vstd::prelude::*;
use crate::parse::{byte_len, lemma_encode_concat};

verus! {

/// A change to the tag store.
#[derive(Clone, Copy, PartialEq, Eq, Debug)]
pub enum TagChange {
    Delete,
    Create,
    Update,
}

/// What the bot does after a change to the tag store.
pub enum TagOutcome {
    /// Reply with this text.
    Reply(String),
    /// Confirm the command with a check mark.
    Confirm,
}

/// The reply when a change touched no row.
pub open spec fn change_failure(change: TagChange) -> Seq<char> {
    match change {
        TagChange::Delete => "A database error occurred when deleting the tag."@,
        TagChange::Create => "A database error occurred when creating the tag."@,
        TagChange::Update => "A database error occurred when updating the tag."@,
    }
}

/// The outcome of a change that touched `rows_affected` rows: a failure
/// reply when it touched none, a confirmation otherwise.
pub fn tag_change_outcome(change: TagChange, rows_affected: u64) -> (r: TagOutcome)
    ensures
        rows_affected == 0 ==> (r matches TagOutcome::Reply(t) && t@ == change_failure(change)),
        rows_affected != 0 ==> r is Confirm,
{
    if rows_affected == 0 {
        let t = match change {
            TagChange::Delete => "A database error occurred when deleting the tag.",
            TagChange::Create => "A database error occurred when creating the tag.",
            TagChange::Update => "A database error occurred when updating the tag.",
        };
        TagOutcome::Reply(t.to_owned())
    } else {
        TagOutcome::Confirm
    }
}

/// The reply to `?tag key`: the value of the tag, or a note that there is
/// none.
pub fn tag_reply(key: &str, value: Option<&str>) -> (r: String)
    ensures
        value matches Some(v) ==> r@ == v@,
        value is None ==> r@ == "Tag not found for `"@ + key@ + "`"@,
{
    match value {
        Some(v) => v.to_owned(),
        None => {
            let mut r = "Tag not found for `".to_owned();
            r.append(key);
            r.append("`");
            r
        },
    }
}

/// The tag keys listed, one per line, as long as the list so far is under
/// 1980 bytes.
pub open spec fn tag_list(keys: Seq<Seq<char>>) -> Seq<char>
    decreases keys.len(),
{
    if keys.len() == 0 {
        Seq::empty()
    } else {
        let prev = tag_list(keys.drop_last());
        if byte_len(prev) < 1980 {
            prev + keys.last() + seq!['\n']
        } else {
            prev
        }
    }
}

/// The tag list stays within a message: it grows only while it is under
/// 1980 bytes, so it ends under 1980 bytes plus one key and a newline.
pub proof fn law_tag_list_bounded(keys: Seq<Seq<char>>, longest: nat)
    requires
        forall|i: int| 0 <= i < keys.len() ==> byte_len(#[trigger] keys[i]) <= longest,
    ensures
        byte_len(tag_list(keys)) < 1980 + longest + 1,
    decreases keys.len(),
{
    if keys.len() > 0 {
        let prev = tag_list(keys.drop_last());
        assert forall|i: int| 0 <= i < keys.drop_last().len() implies byte_len(#[trigger] keys.drop_last()[i]) <= longest by {
            assert(keys.drop_last()[i] == keys[i]);
        }
        law_tag_list_bounded(keys.drop_last(), longest);
        if byte_len(prev) < 1980 {
            lemma_encode_concat(prev, keys.last());
            lemma_encode_concat(prev + keys.last(), seq!['\n']);
            assert(vstd::utf8::encode_utf8(seq!['\n']).len() == 1) by {
                reveal_with_fuel(vstd::utf8::encode_utf8, 2);
            }
            assert(byte_len(keys[keys.len() - 1]) <= longest);
        }
    }
}

/// The views of some strings.
pub open spec fn strings_view(v: Seq<String>) -> Seq<Seq<char>> {
    Seq::new(v.len(), |i: int| v[i]@)
}

/// The reply to `?tags`: the keys of all tags, or a note that there are
/// none.
pub fn all_tags_reply(keys: &[String]) -> (r: String)
    requires
        forall|i: int| 0 <= i < keys@.len() ==> byte_len(#[trigger] keys@[i]@) + 1981 <= usize::MAX,
    ensures
        keys@.len() == 0 ==> r@ == "No tags found"@,
        keys@.len() > 0 ==> r@ == "All tags: ```\n"@ + tag_list(strings_view(keys@)) + "```"@,
{
    if keys.len() == 0 {
        return "No tags found".to_owned();
    }
    let ghost all = strings_view(keys@);
    let mut list = String::new();
    let mut i: usize = 0;
    proof {
        assert(all.take(0) =~= Seq::<Seq<char>>::empty());
        assert(list@ =~= Seq::<char>::empty());
    }
    while i < keys.len()
        invariant
            0 <= i <= keys@.len(),
            all == strings_view(keys@),
            forall|j: int| 0 <= j < keys@.len() ==> byte_len(#[trigger] keys@[j]@) + 1981 <= usize::MAX,
            list@ == tag_list(all.take(i as int)),
            byte_len(list@) <= usize::MAX,
        decreases keys@.len() - i,
    {
        proof {
            assert(all.take(i + 1).drop_last() =~= all.take(i as int));
            assert(all.take(i + 1).last() == keys@[i as int]@);
        }
        if list.as_str().len() < 1980 {
            let ghost prev = list@;
            list.append(keys[i].as_str());
            list.append("\n");
            proof {
                reveal_strlit("\n");
                assert("\n"@ =~= seq!['\n']);
                lemma_encode_concat(prev, keys@[i as int]@);
                lemma_encode_concat(prev + keys@[i as int]@, seq!['\n']);
                assert(vstd::utf8::encode_utf8(seq!['\n']).len() == 1) by {
                    reveal_with_fuel(vstd::utf8::encode_utf8, 2);
                }
            }
        }
        i = i + 1;
    }
    proof {
        assert(all.take(keys@.len() as int) =~= all);
    }
    let mut r = "All tags: ```\n".to_owned();
    r.append(list.as_str());
    r.append("```");
    r
}

} // verus!
