//! Turns a detected change into the text of a toast notification.

use vstd::prelude::*;

use crate::protocol::ChangeKind;
use crate::text::owned;

verus! {

/// Whom a change that this machine detected itself is attributed to.
pub const THIS_MACHINE: &'static str = "このPC";

/// What happened to a path, in words.
pub open spec fn verb_text(kind: ChangeKind) -> Seq<char> {
    match kind {
        ChangeKind::Created => "作成されました"@,
        ChangeKind::Modified => "更新されました"@,
        ChangeKind::Removed => "削除されました"@,
        ChangeKind::Renamed => "名前が変更されました"@,
    }
}

/// What happened to a path, in words.
pub fn verb(kind: ChangeKind) -> (words: &'static str)
    ensures
        words@ == verb_text(kind),
{
    match kind {
        ChangeKind::Created => "作成されました",
        ChangeKind::Modified => "更新されました",
        ChangeKind::Removed => "削除されました",
        ChangeKind::Renamed => "名前が変更されました",
    }
}

/// A notification: who, and what happened.
#[derive(Debug, PartialEq)]
pub struct Toast {
    pub title: String,
    pub body: String,
}

/// The toast for a change to `path`, attributed to `actor_label`: a hostname, or `THIS_MACHINE`
/// for a change that this machine detected itself.
pub fn change_toast(actor_label: &str, path: &str, kind: ChangeKind) -> (toast: Toast)
    ensures
        toast.title@ == actor_label@,
        toast.body@ == path@ + " が"@ + verb_text(kind),
{
    let mut body = owned(path);
    body.append(" が");
    body.append(verb(kind));
    Toast { title: owned(actor_label), body }
}

/// Each kind of change has words of its own.
pub proof fn law_each_kind_has_its_own_words(kind: ChangeKind)
    ensures
        verb_text(kind) == "作成されました"@ <==> kind == ChangeKind::Created,
        verb_text(kind) == "更新されました"@ <==> kind == ChangeKind::Modified,
        verb_text(kind) == "削除されました"@ <==> kind == ChangeKind::Removed,
        verb_text(kind) == "名前が変更されました"@ <==> kind == ChangeKind::Renamed,
{
    reveal_strlit("作成されました");
    reveal_strlit("更新されました");
    reveal_strlit("削除されました");
    reveal_strlit("名前が変更されました");
    assert("作成されました"@[0] == '作');
    assert("更新されました"@[0] == '更');
    assert("削除されました"@[0] == '削');
    assert("名前が変更されました"@[0] == '名');
}

} // verus!
