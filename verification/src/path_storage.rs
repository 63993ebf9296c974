//! Path commands and vertices

use vstd::prelude::*;

verus! {

/// What a vertex of a path does
#[derive(Debug, Copy, Clone, PartialEq, Eq, Structural)]
pub enum PathCommand {
    Stop,
    MoveTo,
    LineTo,
    Close,
}

impl Default for PathCommand {
    fn default() -> (c: PathCommand)
        ensures
            c == PathCommand::MoveTo,
    {
        PathCommand::MoveTo
    }
}

/// A point of a path and what it does
#[derive(Debug, Copy, Clone)]
pub struct Vertex<T> {
    pub x: T,
    pub y: T,
    pub cmd: PathCommand,
}

impl<T> Vertex<T> {
    pub fn new(x: T, y: T, cmd: PathCommand) -> (v: Self)
        ensures
            v.x == x && v.y == y && v.cmd == cmd,
    {
        Self { x, y, cmd }
    }

    /// A point that stops the path
    pub fn xy(x: T, y: T) -> (v: Self)
        ensures
            v.x == x && v.y == y && v.cmd == PathCommand::Stop,
    {
        Self { x, y, cmd: PathCommand::Stop }
    }

    pub fn move_to(x: T, y: T) -> (v: Self)
        ensures
            v.x == x && v.y == y && v.cmd == PathCommand::MoveTo,
    {
        Self { x, y, cmd: PathCommand::MoveTo }
    }

    pub fn line_to(x: T, y: T) -> (v: Self)
        ensures
            v.x == x && v.y == y && v.cmd == PathCommand::LineTo,
    {
        Self { x, y, cmd: PathCommand::LineTo }
    }

    pub fn close_polygon(x: T, y: T) -> (v: Self)
        ensures
            v.x == x && v.y == y && v.cmd == PathCommand::Close,
    {
        Self { x, y, cmd: PathCommand::Close }
    }
}

/// Direction in which a polygon winds
#[derive(Debug, Copy, Clone, PartialEq, Eq, Structural)]
pub enum PathOrientation {
    Clockwise,
    CounterClockwise,
}

} // verus!

verus! {

/// The index of the first move-to of `cmds` at or after `i`, or the length
/// if there is none
pub open spec fn next_move(cmds: Seq<PathCommand>, i: int) -> int
    decreases cmds.len() - i,
{
    if i >= cmds.len() {
        cmds.len() as int
    } else if cmds[i] == PathCommand::MoveTo {
        i
    } else {
        next_move(cmds, i + 1)
    }
}

/// Index `s` starts a subpath: a move-to followed by another command
pub open spec fn starts_subpath(cmds: Seq<PathCommand>, s: int) -> bool {
    &&& 0 <= s
    &&& s + 1 < cmds.len()
    &&& cmds[s] == PathCommand::MoveTo
    &&& cmds[s + 1] != PathCommand::MoveTo
}

/// The subpaths that start before index `n`, in order: each the index of
/// its move-to and the last index before the next move-to (or the path's end)
pub open spec fn subpaths_upto(cmds: Seq<PathCommand>, n: int) -> Seq<(usize, usize)>
    decreases n,
{
    if n <= 0 {
        seq![]
    } else {
        subpaths_upto(cmds, n - 1) + if starts_subpath(cmds, n - 1) {
            seq![((n - 1) as usize, (next_move(cmds, n) - 1) as usize)]
        } else {
            seq![]
        }
    }
}

/// The commands of a path
pub open spec fn commands<T>(path: Seq<Vertex<T>>) -> Seq<PathCommand> {
    path.map_values(|v: Vertex<T>| v.cmd)
}

/// With no move-to from `a` up to `b`, which is the end or a move-to, the
/// next move-to from `a` is at `b`
proof fn lemma_next_move(cmds: Seq<PathCommand>, a: int, b: int)
    requires
        0 <= a <= b <= cmds.len(),
        forall|j: int| a <= j < b ==> cmds[j] != PathCommand::MoveTo,
        b == cmds.len() || cmds[b] == PathCommand::MoveTo,
    ensures
        next_move(cmds, a) == b,
    decreases b - a,
{
    if a < b {
        lemma_next_move(cmds, a + 1, b);
    }
}

/// No subpath starts from `a` up to `b`: the subpaths before `b` are those
/// before `a`
proof fn lemma_no_starts(cmds: Seq<PathCommand>, a: int, b: int)
    requires
        0 <= a <= b,
        forall|j: int| a <= j < b ==> !starts_subpath(cmds, j),
    ensures
        subpaths_upto(cmds, b) == subpaths_upto(cmds, a),
    decreases b - a,
{
    if a < b {
        lemma_no_starts(cmds, a, b - 1);
        assert(subpaths_upto(cmds, b) =~= subpaths_upto(cmds, b - 1));
    }
}

/// The subpaths of `path`: for each move-to followed by other commands, its
/// index and the last index before the next move-to or the end of the path
pub fn split<T: Copy>(path: &[Vertex<T>]) -> (pairs: Vec<(usize, usize)>)
    ensures
        pairs@ == subpaths_upto(commands(path@), path@.len() as int),
{
    let ghost cmds = commands(path@);
    let mut start: Option<usize> = None;
    let mut end: Option<usize> = None;
    let mut pairs: Vec<(usize, usize)> = Vec::new();
    let mut i: usize = 0;
    while i < path.len()
        invariant
            i <= path@.len(),
            cmds == commands(path@),
            cmds.len() == path@.len(),
            end is Some ==> start is Some,
            start is None ==> pairs@ == subpaths_upto(cmds, i as int)
                && forall|j: int| 0 <= j < i ==> cmds[j] != PathCommand::MoveTo,
            start matches Some(s) ==> {
                &&& s < i
                &&& cmds[s as int] == PathCommand::MoveTo
                &&& forall|j: int| s < j < i ==> cmds[j] != PathCommand::MoveTo
                &&& pairs@ == subpaths_upto(cmds, s as int)
                &&& (end is None <==> s + 1 == i)
                &&& (end matches Some(e) ==> e + 1 == i)
            },
        decreases path.len() - i,
    {
        let cmd = path[i].cmd;
        assert(cmd == cmds[i as int]);
        let is_move = cmd == PathCommand::MoveTo;
        match (start, end) {
            (None, None) => {
                if is_move {
                    start = Some(i);
                }
            },
            (Some(s), None) => {
                if is_move {
                    start = Some(i);
                    proof {
                        assert(!starts_subpath(cmds, s as int));
                        lemma_no_starts(cmds, s as int, i as int);
                    }
                } else {
                    end = Some(i);
                }
            },
            (Some(s), Some(e)) => {
                if is_move {
                    proof {
                        lemma_next_move(cmds, s + 1, i as int);
                        assert(starts_subpath(cmds, s as int));
                        lemma_no_starts(cmds, s + 1, i as int);
                        assert(subpaths_upto(cmds, s + 1) =~= subpaths_upto(cmds, s as int)
                            + seq![(s, e)]);
                    }
                    pairs.push((s, e));
                    start = Some(i);
                    end = None;
                } else {
                    end = Some(i);
                }
            },
            (None, Some(_)) => {},
        }
        i += 1;
    }
    proof {
        let n = path@.len() as int;
        match start {
            None => {},
            Some(s) => {
                if end is Some {
                    lemma_next_move(cmds, s + 1, n);
                    assert(starts_subpath(cmds, s as int));
                    lemma_no_starts(cmds, s + 1, n);
                } else {
                    assert(!starts_subpath(cmds, s as int));
                    lemma_no_starts(cmds, s as int, n);
                }
            },
        }
    }
    if let (Some(s), Some(e)) = (start, end) {
        proof {
            assert(subpaths_upto(cmds, s + 1) =~= subpaths_upto(cmds, s as int) + seq![(s, e)]);
        }
        pairs.push((s, e));
    }
    pairs
}

/// `b` is the polygon `a` walked backwards: the points in reverse order, the
/// first and the last vertex keeping their own commands
pub open spec fn is_inversion<T>(a: Seq<Vertex<T>>, b: Seq<Vertex<T>>) -> bool {
    &&& b.len() == a.len()
    &&& forall|i: int| 0 <= i < a.len() ==> {
            let n = a.len() as int;
            &&& (#[trigger] b[i]).x == a[n - 1 - i].x
            &&& b[i].y == a[n - 1 - i].y
            &&& b[i].cmd == (if i == 0 || i == n - 1 { a[i].cmd } else { a[n - 1 - i].cmd })
        }
}

/// Inverting a polygon twice gives it back
pub proof fn lemma_invert_twice<T>(a: Seq<Vertex<T>>, b: Seq<Vertex<T>>, c: Seq<Vertex<T>>)
    requires
        is_inversion(a, b),
        is_inversion(b, c),
    ensures
        c == a,
{
    assert forall|i: int| 0 <= i < a.len() implies c[i] == a[i] by {
        let n = a.len() as int;
        assert(b[n - 1 - i].x == a[i].x);
        assert(c[i].x == b[n - 1 - i].x);
    }
    assert(c =~= a);
}

/// Reverse the vertices of a polygon, each end keeping its command
pub fn invert_polygon<T: Copy>(v: &mut Vec<Vertex<T>>)
    requires
        old(v)@.len() >= 1,
    ensures
        is_inversion(old(v)@, final(v)@),
{
    let n = v.len();
    let mut i: usize = 0;
    while i < n / 2
        invariant
            v@.len() == n,
            n == old(v)@.len(),
            i <= n / 2,
            forall|j: int| 0 <= j < n ==> #[trigger] v@[j] == (if j < i || j >= n - i {
                old(v)@[n - 1 - j] } else { old(v)@[j] }),
        decreases n / 2 - i,
    {
        let a = v[i];
        let b = v[n - 1 - i];
        v.set(i, b);
        v.set(n - 1 - i, a);
        i += 1;
    }
    let c0 = v[0].cmd;
    let c1 = v[n - 1].cmd;
    let mut f = v[0];
    f.cmd = c1;
    v.set(0, f);
    let mut l = v[n - 1];
    l.cmd = c0;
    v.set(n - 1, l);
}

} // verus!
