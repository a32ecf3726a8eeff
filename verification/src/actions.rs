use vstd::prelude::*;

use crate::menu::{trash_prompt, trash_prompt_text};
use crate::text::{chars_between, chars_of, join, owned};

verus! {

broadcast use vstd::string::group_string_axioms;

/// `s` without the copies of `c` at its end.
pub open spec fn trim_trailing(s: Seq<char>, c: char) -> Seq<char>
    decreases s.len(),
{
    if s.len() > 0 && s.last() == c {
        trim_trailing(s.drop_last(), c)
    } else {
        s
    }
}

/// `s` without the copies of `c` at its start.
pub open spec fn trim_leading(s: Seq<char>, c: char) -> Seq<char>
    decreases s.len(),
{
    if s.len() > 0 && s[0] == c {
        trim_leading(s.drop_first(), c)
    } else {
        s
    }
}

/// The address that asks the backend at `backend` to rescan the mount at
/// `mount_point`: the mount point, without its leading slashes, goes after
/// `/v1/rescan/`; where nothing of it is left (the root mount), the address
/// ends in `/v1/rescan`, with no extra component.
pub open spec fn rescan_url_text(backend: Seq<char>, mount_point: Seq<char>) -> Seq<char> {
    let path = trim_leading(mount_point, '/');
    if path.len() == 0 {
        trim_trailing(backend, '/') + "/v1/rescan"@
    } else {
        trim_trailing(backend, '/') + "/v1/rescan/"@ + path
    }
}

proof fn lemma_trim_trailing(s: Seq<char>, c: char, e: int)
    requires
        0 <= e <= s.len(),
        forall|j: int| e <= j < s.len() ==> s[j] == c,
        e > 0 ==> s[e - 1] != c,
    ensures
        trim_trailing(s, c) == s.take(e),
    decreases s.len(),
{
    if s.len() > 0 && s.last() == c {
        let t = s.drop_last();
        assert forall|j: int| e <= j < t.len() implies t[j] == c by {
            assert(t[j] == s[j]);
        }
        lemma_trim_trailing(t, c, e);
        assert(t.take(e) =~= s.take(e));
    } else {
        assert(s.take(e) =~= s);
    }
}

proof fn lemma_trim_leading(s: Seq<char>, c: char, b: int)
    requires
        0 <= b <= s.len(),
        forall|j: int| 0 <= j < b ==> s[j] == c,
        b < s.len() ==> s[b] != c,
    ensures
        trim_leading(s, c) == s.skip(b),
    decreases s.len(),
{
    if s.len() > 0 && s[0] == c {
        let t = s.drop_first();
        assert forall|j: int| 0 <= j < b - 1 implies t[j] == c by {
            assert(t[j] == s[j + 1]);
        }
        lemma_trim_leading(t, c, b - 1);
        assert(t.skip(b - 1) =~= s.skip(b));
    } else {
        assert(s.skip(b) =~= s);
    }
}

/// The address of the backend's rescan request for one mount, as in
/// `http://127.0.0.1:9126/v1/rescan/home` for `/home` and
/// `http://127.0.0.1:9126/v1/rescan` for `/`.
pub fn rescan_url(backend_url: &str, mount_point: &str) -> (r: String)
    ensures
        r@ == rescan_url_text(backend_url@, mount_point@),
{
    let url = chars_of(backend_url);
    let mp = chars_of(mount_point);
    let mut e = url.len();
    while e > 0 && url[e - 1] == '/'
        invariant
            e <= url@.len(),
            forall|j: int| e <= j < url@.len() ==> url@[j] == '/',
        decreases e,
    {
        e = e - 1;
    }
    let mut b: usize = 0;
    while b < mp.len() && mp[b] == '/'
        invariant
            b <= mp@.len(),
            forall|j: int| 0 <= j < b ==> mp@[j] == '/',
        decreases mp@.len() - b,
    {
        b = b + 1;
    }
    proof {
        lemma_trim_trailing(url@, '/', e as int);
        lemma_trim_leading(mp@, '/', b as int);
        assert(url@.subrange(0, e as int) =~= url@.take(e as int));
        assert(mp@.subrange(b as int, mp@.len() as int) =~= mp@.skip(b as int));
    }
    let head = chars_between(&url, 0, e);
    let tail = chars_between(&mp, b, mp.len());
    if b == mp.len() {
        join(head, "/v1/rescan")
    } else {
        let s = join(head, "/v1/rescan/");
        join(s, tail.as_str())
    }
}

// ---------------------------------------------------------------------
// Moving a file to the trash
// ---------------------------------------------------------------------

/// What the outside world reports back to the move-to-trash steps.
pub enum TrashEvent {
    /// The user picked "Move to trash" on a file.
    Started,
    /// The confirmation dialog was answered: `true` for "Move to trash".
    Confirmed(bool),
    /// The file was moved to the trash, or could not be, with the reason.
    Trashed(Result<(), String>),
}

/// What is to be done next to move a file to the trash.
pub enum TrashAction {
    /// Ask the user to confirm, in a dialog with this title and text.
    Ask { title: String, prompt: String },
    /// Move the file at `path` to the trash.
    MoveToTrash { path: String },
    /// Send the backend the rescan request at `url`; nothing follows.
    PostRescan { url: String },
    /// Show this error text; nothing follows.
    ShowError { text: String },
    /// Nothing more to do.
    Done,
}

/// The title of the confirmation dialog.
pub open spec fn trash_title_text() -> Seq<char> {
    "Disk Monitor — confirm deletion"@
}

/// The text shown when the file at `path` could not be moved to the
/// trash, for the given reason.
pub open spec fn trash_error_text(path: Seq<char>, reason: Seq<char>) -> Seq<char> {
    "Could not move file to trash:\n\n"@ + path + "\n\nReason: "@ + reason
}

/// One step of moving the file at `path` (of size `size_text`, on the mount
/// at `mount_point`) to the trash: from what just happened, what to do
/// next. The user is asked first; only a confirmation moves the file; a
/// moved file is followed by one rescan request for its mount, a failure
/// by the error text.
pub fn trash_step(
    path: &str,
    size_text: &str,
    backend_url: &str,
    mount_point: &str,
    event: &TrashEvent,
) -> (r: TrashAction)
    ensures
        match event {
            TrashEvent::Started => r matches TrashAction::Ask { title, prompt } && title@
                == trash_title_text() && prompt@ == trash_prompt_text(size_text@, path@),
            TrashEvent::Confirmed(yes) => if *yes {
                r matches TrashAction::MoveToTrash { path: p } && p@ == path@
            } else {
                r is Done
            },
            TrashEvent::Trashed(Ok(())) => r matches TrashAction::PostRescan { url } && url@
                == rescan_url_text(backend_url@, mount_point@),
            TrashEvent::Trashed(Err(reason)) => r matches TrashAction::ShowError { text } && text@
                == trash_error_text(path@, reason@),
        },
        r is MoveToTrash <==> event matches TrashEvent::Confirmed(true),
        r is PostRescan <==> event matches TrashEvent::Trashed(Ok(_)),
{
    match event {
        TrashEvent::Started => TrashAction::Ask {
            title: owned("Disk Monitor — confirm deletion"),
            prompt: trash_prompt(size_text, path),
        },
        TrashEvent::Confirmed(yes) => {
            if *yes {
                TrashAction::MoveToTrash { path: owned(path) }
            } else {
                TrashAction::Done
            }
        },
        TrashEvent::Trashed(Ok(())) => TrashAction::PostRescan {
            url: rescan_url(backend_url, mount_point),
        },
        TrashEvent::Trashed(Err(reason)) => {
            let text = join(owned("Could not move file to trash:\n\n"), path);
            let text = join(join(text, "\n\nReason: "), reason.as_str());
            TrashAction::ShowError { text }
        },
    }
}

} // verus!
