//! Flattening of the window manager's container tree into focusable
//! entries.

use vstd::prelude::*;
use crate::entry::{Entry, EntryView};
use crate::index::entries_view;
use crate::text::{chars_of, push_signed_decimal, signed_decimal, string_of};

verus! {

/// One container of the window manager's tree.
pub struct WindowNode {
    /// The container's name; for a window, its title.
    pub name: Option<String>,
    /// The id of the window this container holds, if it holds one.
    pub window: Option<i32>,
    /// The window's class property, if known.
    pub class: Option<String>,
    /// The child containers.
    pub nodes: Vec<WindowNode>,
}

/// The containers holding a window under `n`, in tree order; a container
/// with a window is not searched further.
pub open spec fn windows_in(n: WindowNode) -> Seq<WindowNode>
    decreases n,
{
    if n.window is Some {
        seq![n]
    } else {
        windows_in_list(n.nodes@)
    }
}

pub open spec fn windows_in_list(ns: Seq<WindowNode>) -> Seq<WindowNode>
    decreases ns,
{
    if ns.len() == 0 {
        seq![]
    } else {
        windows_in(ns[0]) + windows_in_list(ns.skip(1))
    }
}

pub open spec fn is_content(n: WindowNode) -> bool {
    n.name matches Some(s) && s@ == "content"@
}

/// The windows of the workspaces under the `content` children of `ns`.
pub open spec fn content_windows(ns: Seq<WindowNode>) -> Seq<WindowNode>
    decreases ns.len(),
{
    if ns.len() == 0 {
        seq![]
    } else {
        let rest = content_windows(ns.skip(1));
        if is_content(ns[0]) {
            windows_in_list(ns[0].nodes@) + rest
        } else {
            rest
        }
    }
}

/// The windows under each output of `outs`.
pub open spec fn output_windows(outs: Seq<WindowNode>) -> Seq<WindowNode>
    decreases outs.len(),
{
    if outs.len() == 0 {
        seq![]
    } else {
        content_windows(outs[0].nodes@) + output_windows(outs.skip(1))
    }
}

/// The windows of a tree: the first child of the root is reserved and
/// skipped; under each other child, the workspaces of its `content`
/// container are searched.
pub open spec fn running_windows(root: WindowNode) -> Seq<WindowNode> {
    if root.nodes@.len() == 0 {
        seq![]
    } else {
        output_windows(root.nodes@.skip(1))
    }
}

/// The command that focuses window `id`, then brings the launcher to the
/// current workspace and focuses it again.
pub open spec fn focus_command(id: int) -> Seq<char> {
    "i3-msg  [id="@ + signed_decimal(id) + "] focus;i3-msg [title=Launcher] move workspace current; i3-msg [title=Launcher] focus;"@
}

pub open spec fn text_or_empty(s: Option<String>) -> Seq<char> {
    match s {
        Some(t) => t@,
        None => seq![],
    }
}

/// The entry of a window: its title, its class as icon, no launch command,
/// and the command that focuses it.
pub open spec fn window_entry(n: WindowNode) -> EntryView {
    EntryView {
        name: text_or_empty(n.name),
        icon: text_or_empty(n.class),
        exec_command: seq![],
        select: focus_command(
            match n.window {
                Some(id) => id as int,
                None => 0,
            },
        ),
    }
}

/// The entries of the windows `ws`, in order.
pub open spec fn window_entries(ws: Seq<WindowNode>) -> Seq<EntryView> {
    ws.map_values(|w: WindowNode| window_entry(w))
}

proof fn lemma_window_entries_concat(a: Seq<WindowNode>, b: Seq<WindowNode>)
    ensures
        window_entries(a + b) == window_entries(a) + window_entries(b),
{
    assert(window_entries(a + b) =~= window_entries(a) + window_entries(b));
}

fn copy_or_empty(s: &Option<String>) -> (r: String)
    ensures
        r@ == text_or_empty(*s),
{
    match s {
        Some(t) => t.clone(),
        None => {
            let r = String::new();
            assert(r@ =~= Seq::<char>::empty());
            r
        },
    }
}

fn append(out: &mut Vec<char>, s: &str)
    ensures
        final(out)@ == old(out)@ + s@,
{
    let cs = chars_of(s);
    let mut i: usize = 0;
    while i < cs.len()
        invariant
            i <= cs.len(),
            cs@ == s@,
            out@ == old(out)@ + cs@.subrange(0, i as int),
        decreases cs.len() - i,
    {
        out.push(cs[i]);
        i = i + 1;
        assert(out@ =~= old(out)@ + cs@.subrange(0, i as int));
    }
    assert(cs@.subrange(0, cs.len() as int) =~= cs@);
}

/// The command that focuses window `id` (see [`focus_command`]).
pub fn focus_command_for(id: i32) -> (r: String)
    ensures
        r@ == focus_command(id as int),
{
    let mut out: Vec<char> = Vec::new();
    append(&mut out, "i3-msg  [id=");
    push_signed_decimal(&mut out, id as i64);
    append(
        &mut out,
        "] focus;i3-msg [title=Launcher] move workspace current; i3-msg [title=Launcher] focus;",
    );
    assert(out@ =~= focus_command(id as int));
    string_of(&out)
}

fn window_entry_of(n: &WindowNode) -> (r: Entry)
    ensures
        r@ == window_entry(*n),
{
    let id: i32 = match n.window {
        Some(id) => id,
        None => 0,
    };
    let none = String::new();
    assert(none@ =~= Seq::<char>::empty());
    Entry::new(copy_or_empty(&n.name), copy_or_empty(&n.class), none, focus_command_for(id))
}

fn collect_windows(n: &WindowNode, out: &mut Vec<Entry>)
    ensures
        entries_view(final(out)@) == entries_view(old(out)@) + window_entries(windows_in(*n)),
    decreases n,
{
    if n.window.is_some() {
        let ghost before = entries_view(out@);
        let e = window_entry_of(n);
        out.push(e);
        assert(entries_view(out@) =~= before + window_entries(windows_in(*n)));
    } else {
        collect_windows_list(&n.nodes, 0, out);
        assert(n.nodes@.skip(0) =~= n.nodes@);
    }
}

fn collect_windows_list(ns: &Vec<WindowNode>, from: usize, out: &mut Vec<Entry>)
    requires
        from <= ns.len(),
    ensures
        entries_view(final(out)@) == entries_view(old(out)@) + window_entries(
            windows_in_list(ns@.skip(from as int)),
        ),
    decreases ns, ns.len() - from,
{
    if from < ns.len() {
        let ghost start = entries_view(out@);
        let ghost rest = ns@.skip(from as int);
        assert(rest[0] == ns@[from as int]);
        assert(rest.skip(1) =~= ns@.skip(from + 1));
        collect_windows(&ns[from], out);
        let ghost mid = entries_view(out@);
        collect_windows_list(ns, from + 1, out);
        assert(windows_in_list(rest) == windows_in(rest[0]) + windows_in_list(rest.skip(1)));
        proof {
            lemma_window_entries_concat(windows_in(rest[0]), windows_in_list(rest.skip(1)));
        }
        assert(entries_view(out@) =~= start + window_entries(windows_in_list(rest)));
    } else {
        assert(ns@.skip(from as int) =~= Seq::<WindowNode>::empty());
        assert(entries_view(out@) =~= entries_view(out@) + Seq::<EntryView>::empty());
    }
}

fn is_content_exec(n: &WindowNode) -> (r: bool)
    ensures
        r == is_content(*n),
{
    match &n.name {
        Some(t) => *t == "content".to_owned(),
        None => false,
    }
}

fn collect_content(ns: &Vec<WindowNode>, out: &mut Vec<Entry>)
    ensures
        entries_view(final(out)@) == entries_view(old(out)@) + window_entries(
            content_windows(ns@),
        ),
{
    let ghost start = entries_view(out@);
    let ghost want = start + window_entries(content_windows(ns@));
    let mut i: usize = 0;
    assert(ns@.skip(0) =~= ns@);
    assert(start + window_entries(content_windows(ns@)) == want);
    while i < ns.len()
        invariant
            i <= ns.len(),
            want == start + window_entries(content_windows(ns@)),
            entries_view(out@) + window_entries(content_windows(ns@.skip(i as int))) == want,
        decreases ns.len() - i,
    {
        let ghost rest = ns@.skip(i as int);
        assert(rest[0] == ns@[i as int]);
        assert(rest.skip(1) =~= ns@.skip(i + 1));
        let ghost before = entries_view(out@);
        if is_content_exec(&ns[i]) {
            collect_windows_list(&ns[i].nodes, 0, out);
            assert(ns@[i as int].nodes@.skip(0) =~= ns@[i as int].nodes@);
            proof {
                lemma_window_entries_concat(
                    windows_in_list(ns@[i as int].nodes@),
                    content_windows(rest.skip(1)),
                );
            }
            assert(entries_view(out@) + window_entries(content_windows(ns@.skip(i + 1)))
                =~= before + window_entries(content_windows(rest)));
        }
        i = i + 1;
    }
    assert(ns@.skip(i as int) =~= Seq::<WindowNode>::empty());
    assert(entries_view(out@) + Seq::<EntryView>::empty() =~= entries_view(out@));
}

/// The running windows of the tree under `root`, as entries that focus them
/// (see [`running_windows`] and [`window_entry`]). A tree of another shape
/// gives fewer entries or none, never a failure.
pub fn get_running_applications(root: &WindowNode) -> (r: Vec<Entry>)
    ensures
        entries_view(r@) == window_entries(running_windows(*root)),
{
    let mut out: Vec<Entry> = Vec::new();
    let ns = &root.nodes;
    if ns.len() == 0 {
        assert(entries_view(out@) =~= window_entries(running_windows(*root)));
        return out;
    }
    let ghost outs = ns@.skip(1);
    let ghost want = window_entries(output_windows(outs));
    let mut i: usize = 1;
    assert(ns@.skip(1) =~= outs);
    assert(entries_view(out@) + want =~= want);
    while i < ns.len()
        invariant
            1 <= i <= ns.len(),
            outs == ns@.skip(1),
            want == window_entries(output_windows(outs)),
            entries_view(out@) + window_entries(output_windows(ns@.skip(i as int))) == want,
        decreases ns.len() - i,
    {
        let ghost rest = ns@.skip(i as int);
        assert(rest[0] == ns@[i as int]);
        assert(rest.skip(1) =~= ns@.skip(i + 1));
        let ghost before = entries_view(out@);
        collect_content(&ns[i].nodes, &mut out);
        proof {
            lemma_window_entries_concat(
                content_windows(ns@[i as int].nodes@),
                output_windows(rest.skip(1)),
            );
        }
        assert(entries_view(out@) + window_entries(output_windows(ns@.skip(i + 1))) =~= before
            + window_entries(output_windows(rest)));
        i = i + 1;
    }
    assert(ns@.skip(i as int) =~= Seq::<WindowNode>::empty());
    assert(entries_view(out@) + Seq::<EntryView>::empty() =~= entries_view(out@));
    out
}

proof fn lemma_no_content_children(ns: Seq<WindowNode>)
    requires
        forall|j: int| 0 <= j < ns.len() ==> !is_content(#[trigger] ns[j]),
    ensures
        content_windows(ns) == Seq::<WindowNode>::empty(),
    decreases ns.len(),
{
    if ns.len() > 0 {
        assert(forall|j: int| 0 <= j < ns.skip(1).len() ==> ns.skip(1)[j] == ns[j + 1]);
        lemma_no_content_children(ns.skip(1));
    }
}

proof fn lemma_no_content_outputs(outs: Seq<WindowNode>)
    requires
        forall|i: int, j: int|
            0 <= i < outs.len() && 0 <= j < outs[i].nodes@.len() ==> !is_content(
                #[trigger] outs[i].nodes@[j],
            ),
    ensures
        output_windows(outs) == Seq::<WindowNode>::empty(),
    decreases outs.len(),
{
    if outs.len() > 0 {
        lemma_no_content_children(outs[0].nodes@);
        assert forall|i: int, j: int|
            0 <= i < outs.skip(1).len() && 0 <= j < outs.skip(1)[i].nodes@.len() implies !is_content(
            #[trigger] outs.skip(1)[i].nodes@[j],
        ) by {
            assert(outs.skip(1)[i] == outs[i + 1]);
        }
        lemma_no_content_outputs(outs.skip(1));
        assert(Seq::<WindowNode>::empty() + Seq::<WindowNode>::empty() =~= Seq::<
            WindowNode,
        >::empty());
    }
}

/// A tree in which no output has a `content` container holds no windows:
/// enumerating it yields an empty list rather than a failure.
pub proof fn lemma_no_content_no_windows(root: WindowNode)
    requires
        forall|i: int, j: int|
            1 <= i < root.nodes@.len() && 0 <= j < root.nodes@[i].nodes@.len() ==> !is_content(
                #[trigger] root.nodes@[i].nodes@[j],
            ),
    ensures
        running_windows(root) == Seq::<WindowNode>::empty(),
        window_entries(running_windows(root)).len() == 0,
{
    if root.nodes@.len() > 0 {
        let outs = root.nodes@.skip(1);
        assert forall|i: int, j: int|
            0 <= i < outs.len() && 0 <= j < outs[i].nodes@.len() implies !is_content(
            #[trigger] outs[i].nodes@[j],
        ) by {
            assert(outs[i] == root.nodes@[i + 1]);
        }
        lemma_no_content_outputs(outs);
    }
}

} // verus!
