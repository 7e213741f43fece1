//! What the calls to a file system do to its files.

use vstd::prelude::*;

use crate::durability::{live_file, open_ops, publish_ops, remove_ops, write_ops, OpenMode};
use crate::path::{parent_of, DirView, PathView};
use crate::sim::{law_process_sees_each_operation, written, OpView};

verus! {

/// Opening a file to create it leaves it empty, opening it to append leaves what
/// it holds and creates it if it is missing, and opening it to read does nothing.
/// Other files are left alone.
pub proof fn law_open_creates_or_empties(history: Seq<OpView>, path: PathView, q: PathView)
    ensures
        ({
            let create = history + open_ops(history, path, OpenMode::Create);
            let append = history + open_ops(history, path, OpenMode::Append);
            let read = history + open_ops(history, path, OpenMode::Read);
            &&& live_file(create, path) == Some(Seq::<u8>::empty())
            &&& live_file(append, path) == Some(
                if live_file(history, path) is Some {
                    live_file(history, path)->Some_0
                } else {
                    Seq::empty()
                },
            )
            &&& read == history
            &&& q != path ==> live_file(create, q) == live_file(history, q) && live_file(append, q)
                == live_file(history, q)
        }),
{
    let make = OpView::Create { path };
    let empty = OpView::Truncate { path, len: 0 };
    law_process_sees_each_operation(history, make, path);
    law_process_sees_each_operation(history, make, q);
    law_process_sees_each_operation(history, empty, path);
    law_process_sees_each_operation(history, empty, q);
    assert(history + seq![make] =~= history.push(make));
    assert(history + seq![empty] =~= history.push(empty));
    assert(history + Seq::<OpView>::empty() =~= history);
    if live_file(history, path) is Some {
        assert(crate::sim::resized(live_file(history, path)->Some_0, 0) =~= Seq::<u8>::empty());
    }
}

/// A removed file is gone, and other files are left alone. Removing a file that is
/// not there does nothing.
pub proof fn law_remove_takes_the_file_away(history: Seq<OpView>, path: PathView, q: PathView)
    ensures
        ({
            let after = history + remove_ops(history, path);
            &&& live_file(after, path) is None
            &&& q != path ==> live_file(after, q) == live_file(history, q)
            &&& live_file(history, path) is None ==> after == history
        }),
{
    let op = OpView::Remove { path };
    law_process_sees_each_operation(history, op, path);
    law_process_sees_each_operation(history, op, q);
    assert(history + seq![op] =~= history.push(op));
    assert(history + Seq::<OpView>::empty() =~= history);
}

/// Writing a buffer puts it at its offset. Writing more buffers puts each behind
/// the one before it; an empty one is no write.
pub proof fn law_buffers_are_written_one_behind_the_other(
    history: Seq<OpView>,
    path: PathView,
    offset: int,
    buf: Seq<u8>,
    more: Seq<Seq<u8>>,
    q: PathView,
)
    requires
        0 <= offset,
        offset + buf.len() <= u64::MAX,
        live_file(history, path) is Some,
    ensures
        ({
            let one = write_ops(path, offset, seq![buf]);
            &&& write_ops(path, offset, seq![buf] + more) == one + write_ops(
                path,
                offset + buf.len(),
                more,
            )
            &&& buf.len() == 0 ==> one.len() == 0
            &&& buf.len() > 0 ==> live_file(history + one, path) == Some(
                written(live_file(history, path)->Some_0, offset, buf),
            )
            &&& q != path ==> live_file(history + one, q) == live_file(history, q)
        }),
{
    let bufs = seq![buf];
    let all = bufs + more;
    let none = Seq::<Seq<u8>>::empty();
    assert(bufs.skip(1) =~= none);
    assert(all.skip(1) =~= more);
    assert(write_ops(path, offset + buf.len(), none) =~= Seq::empty());
    let op = OpView::Write { path, offset: offset as u64, data: buf };
    assert(write_ops(path, offset, all) =~= write_ops(path, offset, bufs) + write_ops(
        path,
        offset + buf.len(),
        more,
    ));
    law_process_sees_each_operation(history, op, path);
    law_process_sees_each_operation(history, op, q);
    if buf.len() > 0 {
        assert(write_ops(path, offset, bufs) =~= seq![op]);
        assert(history + seq![op] =~= history.push(op));
    } else {
        assert(write_ops(path, offset, bufs) =~= Seq::empty());
        assert(history + Seq::<OpView>::empty() =~= history);
    }
}

/// A published file is under its new name with all it holds, and no longer under
/// the old one. Other files are left alone. Its contents are synced before it gets
/// the name, and the directory after.
pub proof fn law_publish_moves_the_file(
    history: Seq<OpView>,
    from: PathView,
    to: PathView,
    q: PathView,
)
    requires
        live_file(history, from) is Some,
        from != to,
    ensures
        ({
            let ops = publish_ops(from, to);
            let after = history + ops;
            &&& live_file(after, to) == live_file(history, from)
            &&& live_file(after, from) is None
            &&& q != from && q != to ==> live_file(after, q) == live_file(history, q)
            &&& ops.len() == 3
            &&& ops[0] == OpView::SyncFile { path: from }
            &&& ops[1] == OpView::Rename { from, to }
            &&& ops[2] == OpView::SyncDir { dir: parent_of(to) }
        }),
{
    let ops = publish_ops(from, to);
    let a = history.push(ops[0]);
    let b = a.push(ops[1]);
    let c = b.push(ops[2]);
    assert(history + ops =~= c);
    law_process_sees_each_operation(history, ops[0], from);
    law_process_sees_each_operation(history, ops[0], q);
    law_process_sees_each_operation(a, ops[1], to);
    law_process_sees_each_operation(a, ops[1], from);
    law_process_sees_each_operation(a, ops[1], q);
    law_process_sees_each_operation(b, ops[2], to);
    law_process_sees_each_operation(b, ops[2], from);
    law_process_sees_each_operation(b, ops[2], q);
}

/// The directory of a file is the one that its path names, and that of a bare file
/// name is the current one.
pub proof fn law_parent_is_the_directory(path: PathView)
    ensures
        path.dir.rooted || path.dir.parts.len() > 0 ==> parent_of(path) == path.dir,
        !path.dir.rooted && path.dir.parts.len() == 0 ==> parent_of(path) == (DirView {
            rooted: false,
            parts: seq![seq!['.']],
        }),
{
    reveal_strlit(".");
    let dot = seq!['.'];
    assert("."@ =~= dot);
    crate::path::law_directory_is_its_components(dot, dot);
    if !path.dir.rooted && path.dir.parts.len() == 0 {
        assert(path.dir.parts =~= Seq::empty());
    }
}

} // verus!
