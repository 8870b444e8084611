//! Path enumerator: walks the directory tree under a root into a flat list
//! of path strings, one per visited entry, in traversal order.
//!
//! A single entry that cannot be read is skipped and the walk continues; a
//! root that cannot be read at all fails the whole walk.

use vstd::prelude::*;

verus! {

/// One item yielded by the walk: the path of a visited entry, or a marker
/// for an entry that could not be read (a per-entry error such as a
/// permission failure, or a path that is not valid text).
#[derive(Debug)]
pub enum WalkItem {
    Entry(String),
    Unreadable,
}

/// Failure of the walk as a whole: the root itself could not be read.
#[derive(Clone, Copy, Debug, PartialEq, Eq)]
pub enum WalkError {
    RootUnreadable,
}

/// The path strings of the readable entries among `items`, in order.
pub open spec fn collected(items: Seq<WalkItem>) -> Seq<String>
    decreases items.len(),
{
    if items.len() == 0 {
        Seq::empty()
    } else {
        collected(items.drop_last()) + match items.last() {
            WalkItem::Entry(s) => seq![s],
            WalkItem::Unreadable => Seq::empty(),
        }
    }
}

/// The walk failed at its root: a walk of a missing or unreadable root
/// yields exactly one item, the error for the root itself, so failure shows
/// as an unreadable first item.
pub open spec fn root_failed(items: Seq<WalkItem>) -> bool {
    items.len() > 0 && items[0] is Unreadable
}

/// Turn the items of a finished walk into the enumeration result. If the
/// first item already could not be read, the root itself was unreadable and
/// the walk as a whole fails; otherwise the readable entries' paths are
/// returned in traversal order, and only the unreadable entries are omitted.
pub fn process_walk(items: &Vec<WalkItem>) -> (r: Result<Vec<String>, WalkError>)
    ensures
        r is Err <==> root_failed(items@),
        r is Err ==> r->Err_0 == WalkError::RootUnreadable,
        r is Ok ==> r->Ok_0@ == collected(items@),
{
    if items.len() > 0 {
        let first_unreadable = match &items[0] {
            WalkItem::Unreadable => true,
            WalkItem::Entry(_) => false,
        };
        if first_unreadable {
            return Err(WalkError::RootUnreadable);
        }
    }
    let mut out: Vec<String> = Vec::new();
    let mut i: usize = 0;
    while i < items.len()
        invariant
            i <= items@.len(),
            out@ == collected(items@.take(i as int)),
        decreases items@.len() - i,
    {
        match &items[i] {
            WalkItem::Entry(s) => {
                out.push(s.clone());
            },
            WalkItem::Unreadable => {},
        }
        proof {
            assert(items@.take(i as int + 1).drop_last() =~= items@.take(i as int));
            assert(items@.take(i as int + 1).last() == items@[i as int]);
        }
        i += 1;
    }
    proof {
        assert(items@.take(items@.len() as int) =~= items@);
    }
    Ok(out)
}

#[verifier::external_type_specification]
#[verifier::external_body]
pub struct ExWalkDir(walkdir::WalkDir);

#[verifier::external_type_specification]
#[verifier::external_body]
pub struct ExWalkDirIntoIter(walkdir::IntoIter);

#[verifier::external_type_specification]
#[verifier::external_body]
pub struct ExWalkDirEntry(walkdir::DirEntry);

#[verifier::external_type_specification]
#[verifier::external_body]
pub struct ExWalkDirError(walkdir::Error);

/// Relies on `walkdir::WalkDir::new`: describes a depth-first walk of the
/// directory tree rooted at the given path, the root itself included.
#[verifier::external_body]
fn walk_new(root: &str) -> walkdir::WalkDir {
    walkdir::WalkDir::new(root)
}

/// Relies on `<walkdir::WalkDir as IntoIterator>::into_iter`: begins the walk.
#[verifier::external_body]
fn walk_start(w: walkdir::WalkDir) -> walkdir::IntoIter {
    w.into_iter()
}

/// Relies on `walkdir::IntoIter::next` and `walkdir::DirEntry::path`: yields
/// the walk's next entry in traversal order, or `None` once the walk is
/// done. An entry that could not be read, or whose path is not valid text,
/// comes back as `Unreadable`. What comes back depends on the filesystem, so
/// nothing more is promised of it.
#[verifier::external_body]
fn walk_next(it: &mut walkdir::IntoIter) -> Option<WalkItem> {
    match it.next() {
        None => None,
        Some(Ok(entry)) => match entry.path().to_str() {
            Some(p) => Some(WalkItem::Entry(p.to_string())),
            None => Some(WalkItem::Unreadable),
        },
        Some(Err(_)) => Some(WalkItem::Unreadable),
    }
}

/// Walk the directory tree under `path` and return the visited entries'
/// paths in traversal order. An entry that cannot be read is skipped and the
/// walk continues; a missing or unreadable root fails the whole walk. What
/// the walk yields depends on the filesystem, so the contract fixes the
/// policy over the items the walk yielded: the walk fails exactly when its
/// first item was unreadable, and otherwise returns the readable entries'
/// paths, in order, omitting only the unreadable ones. The traversal is
/// bounded, guarding against an unbounded chain of links.
pub fn walk_dir(path: &str) -> (r: Result<Vec<String>, WalkError>)
    ensures
        r is Err ==> r->Err_0 == WalkError::RootUnreadable,
        exists|items: Seq<WalkItem>|
            (r is Err <==> root_failed(items)) && (r is Ok ==> r->Ok_0@ == collected(items)),
{
    let w = walk_new(path);
    let mut it = walk_start(w);
    let mut items: Vec<WalkItem> = Vec::new();
    let mut going: bool = true;
    let mut fuel: usize = usize::MAX;
    while going && fuel > 0
        invariant
            true,
        decreases fuel,
    {
        fuel = fuel - 1;
        match walk_next(&mut it) {
            None => {
                going = false;
            },
            Some(item) => {
                items.push(item);
            },
        }
    }
    let r = process_walk(&items);
    proof {
        let yielded = items@;
        assert((r is Err <==> root_failed(yielded)) && (r is Ok ==> r->Ok_0@ == collected(
            yielded,
        )));
    }
    r
}

} // verus!
