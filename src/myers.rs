use vstd::laws_eq::obeys_concrete_eq;
use vstd::prelude::*;

verus! {

/// One step of an edit script that turns a sequence `a` into a sequence `b`.
///
/// `Keep` copies one element present in both; `Delete` drops the element of `a`
/// at the given position; `Insert` splices in an element of `b` at the given
/// position of `a`.
#[derive(Debug, Clone, Copy, PartialEq, Eq)]
pub enum EditCommand<T> {
    Keep(T),
    Delete(T, usize),
    Insert(T, usize),
}

/// The elements of `a` that a script reads, in order.
pub open spec fn consumed<T>(s: Seq<EditCommand<T>>) -> Seq<T>
    decreases s.len(),
{
    if s.len() == 0 {
        Seq::empty()
    } else {
        match s[0] {
            EditCommand::Keep(e) => seq![e] + consumed(s.drop_first()),
            EditCommand::Delete(e, _) => seq![e] + consumed(s.drop_first()),
            EditCommand::Insert(_, _) => consumed(s.drop_first()),
        }
    }
}

/// The elements that a script writes, in order: the result of applying it.
pub open spec fn produced<T>(s: Seq<EditCommand<T>>) -> Seq<T>
    decreases s.len(),
{
    if s.len() == 0 {
        Seq::empty()
    } else {
        match s[0] {
            EditCommand::Keep(e) => seq![e] + produced(s.drop_first()),
            EditCommand::Delete(_, _) => produced(s.drop_first()),
            EditCommand::Insert(e, _) => seq![e] + produced(s.drop_first()),
        }
    }
}

/// Each `Delete` and `Insert` names the position in `a` that the script has
/// reached, counting from `p`.
pub open spec fn positions_from<T>(s: Seq<EditCommand<T>>, p: int) -> bool
    decreases s.len(),
{
    if s.len() == 0 {
        true
    } else {
        match s[0] {
            EditCommand::Keep(_) => positions_from(s.drop_first(), p + 1),
            EditCommand::Delete(_, q) => q == p && positions_from(s.drop_first(), p + 1),
            EditCommand::Insert(_, q) => q == p && positions_from(s.drop_first(), p),
        }
    }
}

/// `s` applied to `a` yields `b`: it reads all of `a` in order, writes all of `b`
/// in order, and records positions of `a` consistently.
pub open spec fn transforms<T>(s: Seq<EditCommand<T>>, a: Seq<T>, b: Seq<T>) -> bool {
    &&& consumed(s) == a
    &&& produced(s) == b
    &&& positions_from(s, 0)
}

/// Number of insertions and deletions in a script.
pub open spec fn edit_count<T>(s: Seq<EditCommand<T>>) -> nat
    decreases s.len(),
{
    if s.len() == 0 {
        0
    } else {
        match s[0] {
            EditCommand::Keep(_) => edit_count(s.drop_first()),
            _ => 1 + edit_count(s.drop_first()),
        }
    }
}

/// The script that keeps every element of `a`.
pub open spec fn keep_all<T>(a: Seq<T>) -> Seq<EditCommand<T>> {
    a.map_values(|e: T| EditCommand::Keep(e))
}

/// The frontier recorded for distance `d` has one entry per diagonal
/// `-d, -d + 2, ..., d` (entry `i` is diagonal `2i - d`), and each entry is a
/// point of the extended edit graph reached with at least `d` unit moves.
pub open spec fn frontier_wf(v: Seq<usize>, d: int, n: int, m: int) -> bool {
    &&& v.len() == d + 1
    &&& forall|i: int|
        0 <= i <= d ==> {
            &&& i <= #[trigger] v[i]
            &&& v[i] <= n + d
            &&& v[i] + d - 2 * i <= m + d
        }
}

/// A history of frontiers for distances `0, 1, ...`.
pub open spec fn history_wf(h: Seq<Vec<usize>>, n: int, m: int) -> bool {
    forall|d: int| 0 <= d < h.len() ==> frontier_wf(#[trigger] h[d]@, d, n, m)
}

/// The search's tie-break: the entry `i` at distance `d` continues from the
/// diagonal above (a move down, an insertion) when it is the lowest diagonal,
/// or when it is not the highest and the diagonal below reached less far;
/// otherwise it continues from the diagonal below one step right (a deletion).
/// At distance `0` the start is `x = 0`.
pub open spec fn furthest_x(prev: Seq<usize>, i: int, d: int) -> int {
    if d == 0 {
        0
    } else if i == 0 || (i != d && prev[i - 1] < prev[i]) {
        prev[i] as int
    } else {
        prev[i - 1] + 1
    }
}

/// The frontier of distance `l` in `h` is what the search records: each entry
/// reaches at least as far as the tie-break gives, its run of matches is
/// exhausted, and it has not reached the end of both sequences.
pub open spec fn level_searched<T>(h: Seq<Vec<usize>>, l: int, a: Seq<T>, b: Seq<T>) -> bool {
    forall|i: int|
        0 <= i <= l ==> {
            let x = #[trigger] h[l]@[i] as int;
            let y = x + l - 2 * i;
            &&& (l > 0 ==> x >= furthest_x(h[l - 1]@, i, l))
            &&& !(x < a.len() && y < b.len() && a[x] == b[y])
            &&& !(x >= a.len() && y >= b.len())
        }
}

/// Every frontier of `h` is one that the search records.
pub open spec fn history_searched<T>(h: Seq<Vec<usize>>, a: Seq<T>, b: Seq<T>) -> bool {
    forall|l: int| 0 <= l < h.len() ==> #[trigger] level_searched(h, l, a, b)
}

/// Furthest x on the diagonal of entry `i` at distance `d`, before the free
/// run of matches, taken from the frontier `prev` of distance `d - 1`.
fn find_furthest_x(prev: &Vec<usize>, i: usize, d: usize, Ghost(n): Ghost<int>, Ghost(m): Ghost<int>) -> (x: usize)
    requires
        0 <= n,
        0 <= m,
        i <= d,
        d == 0 ==> prev@.len() == 0,
        d > 0 ==> frontier_wf(prev@, d - 1, n, m),
        n + m + d <= usize::MAX,
    ensures
        i <= x <= n + d,
        x + d - 2 * i <= m + d,
        x == furthest_x(prev@, i as int, d as int),
{
    if d == 0 {
        0
    } else if i == 0 || (i != d && prev[i - 1] < prev[i]) {
        let ghost j: int = i as int;
        assert(j <= prev@[j] <= n + d - 1);
        prev[i]
    } else {
        let ghost j: int = i - 1;
        assert(j <= prev@[j] <= n + d - 1);
        prev[i - 1] + 1
    }
}


/// Whether `a[x]` and `b[y]` are equal, by the elements' own equality.
fn same_element<T: Eq>(a: &[T], b: &[T], x: usize, y: usize) -> (r: bool)
    requires
        x < a@.len(),
        y < b@.len(),
    ensures
        obeys_concrete_eq::<T>() ==> r == (a@[x as int] == b@[y as int]),
{
    proof {
        reveal(obeys_concrete_eq);
    }
    a[x] == b[y]
}

proof fn lemma_split_front<T>(e: T, t: Seq<T>, full: Seq<T>, lo: int)
    requires
        0 <= lo <= full.len(),
        seq![e] + t == full.subrange(lo, full.len() as int),
    ensures
        lo < full.len(),
        full[lo] == e,
        t == full.subrange(lo + 1, full.len() as int),
{
    let u = seq![e] + t;
    assert(u.len() == full.len() - lo);
    assert(u[0] == full[lo]);
    assert forall|j: int| 0 <= j < t.len() implies t[j] == full.subrange(lo + 1, full.len() as int)[j] by {
        assert(u[j + 1] == t[j]);
        assert(u[j + 1] == full[lo + 1 + j]);
    }
    assert(t =~= full.subrange(lo + 1, full.len() as int));
}

/// Appending one command to a script extends what it reads, writes and
/// counts by that command alone.
proof fn lemma_append<T>(p: Seq<EditCommand<T>>, c: EditCommand<T>, base: int)
    ensures
        consumed(p.push(c)) == consumed(p) + consumed(seq![c]),
        produced(p.push(c)) == produced(p) + produced(seq![c]),
        edit_count(p.push(c)) == edit_count(p) + edit_count(seq![c]),
        positions_from(p.push(c), base) == (positions_from(p, base) && positions_from(
            seq![c],
            base + consumed(p).len(),
        )),
    decreases p.len(),
{
    let one = seq![c];
    assert(one.drop_first() =~= Seq::<EditCommand<T>>::empty());
    if p.len() == 0 {
        assert(p.push(c) =~= one);
        assert(consumed(p) =~= Seq::<T>::empty());
        assert(produced(p) =~= Seq::<T>::empty());
        assert(consumed(p) + consumed(one) =~= consumed(one));
        assert(produced(p) + produced(one) =~= produced(one));
    } else {
        let q = p.drop_first();
        assert(p.push(c).drop_first() =~= q.push(c));
        let step = match p[0] {
            EditCommand::Keep(_) => 1int,
            EditCommand::Delete(_, _) => 1int,
            EditCommand::Insert(_, _) => 0int,
        };
        lemma_append(q, c, base + step);
        match p[0] {
            EditCommand::Keep(e) => {
                assert(consumed(p.push(c)) =~= consumed(p) + consumed(one));
                assert(produced(p.push(c)) =~= produced(p) + produced(one));
            },
            EditCommand::Delete(e, _) => {
                assert(consumed(p.push(c)) =~= consumed(p) + consumed(one));
            },
            EditCommand::Insert(e, _) => {
                assert(produced(p.push(c)) =~= produced(p) + produced(one));
            },
        }
    }
}

/// `p` is a path of the edit graph of `a` and `b` from the origin to
/// `(x, y)`, clamped to the grid, with at most `l` edits.
pub open spec fn reaches<T>(p: Seq<EditCommand<T>>, a: Seq<T>, b: Seq<T>, x: int, y: int, l: int) -> bool {
    let cx = if x < a.len() { x } else { a.len() as int };
    let cy = if y < b.len() { y } else { b.len() as int };
    &&& consumed(p) == a.subrange(0, cx)
    &&& produced(p) == b.subrange(0, cy)
    &&& positions_from(p, 0)
    &&& edit_count(p) <= l
}

proof fn lemma_single<T>(c: EditCommand<T>, base: int)
    ensures
        consumed(seq![c]) == match c {
            EditCommand::Insert(_, _) => Seq::<T>::empty(),
            EditCommand::Keep(e) => seq![e],
            EditCommand::Delete(e, _) => seq![e],
        },
        produced(seq![c]) == match c {
            EditCommand::Delete(_, _) => Seq::<T>::empty(),
            EditCommand::Keep(e) => seq![e],
            EditCommand::Insert(e, _) => seq![e],
        },
        edit_count(seq![c]) == match c {
            EditCommand::Keep(_) => 0nat,
            _ => 1nat,
        },
        positions_from(seq![c], base) == match c {
            EditCommand::Keep(_) => true,
            EditCommand::Delete(_, q) => q == base,
            EditCommand::Insert(_, q) => q == base,
        },
{
    let e = Seq::<EditCommand<T>>::empty();
    assert(seq![c].drop_first() =~= e);
    assert(consumed(e) == Seq::<T>::empty());
    assert(produced(e) == Seq::<T>::empty());
    assert(edit_count(e) == 0);
    assert(positions_from(e, base));
    assert(positions_from(e, base + 1));
    assert(seq![c][0] == c);
    match c {
        EditCommand::Keep(v) => {
            assert(seq![v] + Seq::<T>::empty() =~= seq![v]);
        },
        EditCommand::Delete(v, _) => {
            assert(seq![v] + Seq::<T>::empty() =~= seq![v]);
        },
        EditCommand::Insert(v, _) => {
            assert(seq![v] + Seq::<T>::empty() =~= seq![v]);
        },
    }
}

/// A path extended by a move right, deleting `a[x]` while on the grid.
proof fn lemma_move_right<T>(p: Seq<EditCommand<T>>, a: Seq<T>, b: Seq<T>, x: int, y: int, l: int) -> (q:
    Seq<EditCommand<T>>)
    requires
        a.len() <= usize::MAX,
        0 <= x,
        0 <= y,
        reaches(p, a, b, x, y, l),
    ensures
        reaches(q, a, b, x + 1, y, l + 1),
{
    if x < a.len() {
        let c = EditCommand::Delete(a[x], x as usize);
        lemma_append(p, c, 0);
        lemma_single(c, x);
        assert(seq![c].drop_first() =~= Seq::<EditCommand<T>>::empty());
        assert(a.subrange(0, x) + seq![a[x]] =~= a.subrange(0, x + 1));
        p.push(c)
    } else {
        p
    }
}

/// A path extended by a move down, inserting `b[y]` while on the grid.
proof fn lemma_move_down<T>(p: Seq<EditCommand<T>>, a: Seq<T>, b: Seq<T>, x: int, y: int, l: int) -> (q:
    Seq<EditCommand<T>>)
    requires
        a.len() <= usize::MAX,
        0 <= x,
        0 <= y,
        reaches(p, a, b, x, y, l),
    ensures
        reaches(q, a, b, x, y + 1, l + 1),
{
    if y < b.len() {
        let cx = if x < a.len() { x } else { a.len() as int };
        let c = EditCommand::Insert(b[y], cx as usize);
        lemma_append(p, c, 0);
        lemma_single(c, cx);
        assert(seq![c].drop_first() =~= Seq::<EditCommand<T>>::empty());
        assert(b.subrange(0, y) + seq![b[y]] =~= b.subrange(0, y + 1));
        p.push(c)
    } else {
        p
    }
}

/// A path extended along a match `a[x] == b[y]`.
proof fn lemma_move_diagonal<T>(p: Seq<EditCommand<T>>, a: Seq<T>, b: Seq<T>, x: int, y: int, l: int) -> (q:
    Seq<EditCommand<T>>)
    requires
        0 <= x < a.len(),
        0 <= y < b.len(),
        a[x] == b[y],
        reaches(p, a, b, x, y, l),
    ensures
        reaches(q, a, b, x + 1, y + 1, l),
{
    let c = EditCommand::Keep(a[x]);
    lemma_append(p, c, 0);
    lemma_single(c, x);
    assert(seq![c].drop_first() =~= Seq::<EditCommand<T>>::empty());
    assert(a.subrange(0, x) + seq![a[x]] =~= a.subrange(0, x + 1));
    assert(b.subrange(0, y) + seq![b[y]] =~= b.subrange(0, y + 1));
    p.push(c)
}

/// Each entry of the frontier `v` of distance `l` has a path in `pl` reaching it.
pub open spec fn level_reached<T>(
    pl: Seq<Seq<EditCommand<T>>>,
    v: Seq<usize>,
    l: int,
    a: Seq<T>,
    b: Seq<T>,
) -> bool {
    &&& pl.len() == l + 1
    &&& forall|i: int|
        0 <= i <= l ==> reaches(#[trigger] pl[i], a, b, v[i] as int, v[i] + l - 2 * i, l)
}

/// `d` is the edit distance of `a` and `b`: some script turns `a` into `b` with
/// `d` insertions and deletions, and none does with fewer.
pub open spec fn is_edit_distance<T>(a: Seq<T>, b: Seq<T>, d: int) -> bool {
    &&& exists|s: Seq<EditCommand<T>>| transforms(s, a, b) && edit_count(s) == d
    &&& forall|s: Seq<EditCommand<T>>| transforms(s, a, b) ==> #[trigger] edit_count(s) >= d
}

/// A path of the edit graph that has reached `(x0, y0)` with `e0` edits, on a
/// diagonal where the recorded frontier of distance `e0` is at least as far,
/// cannot be completed by a script `s` unless the total number of edits passes
/// every distance that the history `h` records.
proof fn lemma_no_shorter<T>(
    a: Seq<T>,
    b: Seq<T>,
    h: Seq<Vec<usize>>,
    s: Seq<EditCommand<T>>,
    x0: int,
    y0: int,
    e0: int,
    i0: int,
)
    requires
        history_searched(h, a, b),
        history_wf(h, a.len() as int, b.len() as int),
        0 <= e0 < h.len(),
        0 <= i0 <= e0,
        0 <= x0 <= a.len(),
        0 <= y0 <= b.len(),
        y0 + 2 * i0 == x0 + e0,
        h[e0]@[i0] >= x0,
        consumed(s) == a.subrange(x0, a.len() as int),
        produced(s) == b.subrange(y0, b.len() as int),
    ensures
        e0 + edit_count(s) >= h.len(),
    decreases s.len(),
{
    let n = a.len() as int;
    let m = b.len() as int;
    assert(level_searched(h, e0, a, b));
    assert(frontier_wf(h[e0]@, e0, n, m));
    if s.len() == 0 {
        assert(a.subrange(x0, n).len() == 0);
        assert(b.subrange(y0, m).len() == 0);
    } else {
        let rest = s.drop_first();
        assert(s =~= seq![s[0]] + rest);
        lemma_prepend(s[0], rest, 0);
        let ca = consumed(rest);
        let pb = produced(rest);
        match s[0] {
            EditCommand::Keep(e) => {
                lemma_split_front(e, ca, a, x0);
                lemma_split_front(e, pb, b, y0);
                assert(a[x0] == b[y0]);
                lemma_no_shorter(a, b, h, rest, x0 + 1, y0 + 1, e0, i0);
            },
            EditCommand::Delete(e, _) => {
                lemma_split_front(e, ca, a, x0);
                if e0 + 1 < h.len() {
                    assert(level_searched(h, e0 + 1, a, b));
                    assert(frontier_wf(h[e0 + 1]@, e0 + 1, n, m));
                    assert(h[e0 + 1]@[i0 + 1] >= furthest_x(h[e0]@, i0 + 1, e0 + 1));
                    lemma_no_shorter(a, b, h, rest, x0 + 1, y0, e0 + 1, i0 + 1);
                }
            },
            EditCommand::Insert(e, _) => {
                lemma_split_front(e, pb, b, y0);
                if e0 + 1 < h.len() {
                    assert(level_searched(h, e0 + 1, a, b));
                    assert(frontier_wf(h[e0 + 1]@, e0 + 1, n, m));
                    assert(h[e0 + 1]@[i0] >= furthest_x(h[e0]@, i0, e0 + 1));
                    lemma_no_shorter(a, b, h, rest, x0, y0 + 1, e0 + 1, i0);
                }
            },
        }
    }
}

/// The script that undoes `s`: insertions become deletions and the other way
/// round, with positions counted in the sequence that `s` produces, from `q`.
pub open spec fn mirror<T>(s: Seq<EditCommand<T>>, q: int) -> Seq<EditCommand<T>>
    decreases s.len(),
{
    if s.len() == 0 {
        Seq::empty()
    } else {
        match s[0] {
            EditCommand::Keep(e) => seq![EditCommand::Keep(e)] + mirror(s.drop_first(), q + 1),
            EditCommand::Delete(e, _) => seq![EditCommand::Insert(e, q as usize)] + mirror(
                s.drop_first(),
                q,
            ),
            EditCommand::Insert(e, _) => seq![EditCommand::Delete(e, q as usize)] + mirror(
                s.drop_first(),
                q + 1,
            ),
        }
    }
}

proof fn lemma_mirror<T>(s: Seq<EditCommand<T>>, q: int)
    requires
        0 <= q,
        q + produced(s).len() <= usize::MAX,
    ensures
        consumed(mirror(s, q)) == produced(s),
        produced(mirror(s, q)) == consumed(s),
        positions_from(mirror(s, q), q),
        edit_count(mirror(s, q)) == edit_count(s),
    decreases s.len(),
{
    if s.len() == 0 {
        assert(consumed(mirror(s, q)) =~= produced(s));
        assert(produced(mirror(s, q)) =~= consumed(s));
    } else {
        let rest = s.drop_first();
        assert(s =~= seq![s[0]] + rest);
        lemma_prepend(s[0], rest, 0);
        match s[0] {
            EditCommand::Keep(e) => {
                lemma_mirror(rest, q + 1);
                let c = EditCommand::Keep(e);
                lemma_prepend(c, mirror(rest, q + 1), q);
                assert((seq![c] + mirror(rest, q + 1)).drop_first() =~= mirror(rest, q + 1));
            },
            EditCommand::Delete(e, _) => {
                lemma_mirror(rest, q);
                let c = EditCommand::Insert(e, q as usize);
                lemma_prepend(c, mirror(rest, q), q);
                assert((seq![c] + mirror(rest, q)).drop_first() =~= mirror(rest, q));
            },
            EditCommand::Insert(e, _) => {
                lemma_mirror(rest, q + 1);
                let c = EditCommand::Delete(e, q as usize);
                lemma_prepend(c, mirror(rest, q + 1), q);
                assert((seq![c] + mirror(rest, q + 1)).drop_first() =~= mirror(rest, q + 1));
            },
        }
    }
}

proof fn lemma_distance_unique<T>(a: Seq<T>, b: Seq<T>, d1: int, d2: int)
    requires
        is_edit_distance(a, b, d1),
        is_edit_distance(a, b, d2),
    ensures
        d1 == d2,
{
    let s1 = choose|s: Seq<EditCommand<T>>| transforms(s, a, b) && edit_count(s) == d1;
    let s2 = choose|s: Seq<EditCommand<T>>| transforms(s, a, b) && edit_count(s) == d2;
    assert(edit_count(s1) >= d2);
    assert(edit_count(s2) >= d1);
}

/// The edit distance does not depend on the direction: turning `a` into `b`
/// costs as many insertions and deletions as turning `b` into `a`.
pub proof fn lemma_distance_symmetric<T>(a: Seq<T>, b: Seq<T>, d1: int, d2: int)
    requires
        a.len() <= usize::MAX,
        b.len() <= usize::MAX,
        is_edit_distance(a, b, d1),
        is_edit_distance(b, a, d2),
    ensures
        d1 == d2,
{
    let s1 = choose|s: Seq<EditCommand<T>>| transforms(s, a, b) && edit_count(s) == d1;
    let s2 = choose|s: Seq<EditCommand<T>>| transforms(s, b, a) && edit_count(s) == d2;
    lemma_mirror(s1, 0);
    lemma_mirror(s2, 0);
    assert(transforms(mirror(s1, 0), b, a));
    assert(transforms(mirror(s2, 0), a, b));
    assert(edit_count(mirror(s1, 0)) >= d2);
    assert(edit_count(mirror(s2, 0)) >= d1);
}

/// The budget a search actually explores: `max` when given, and never more than
/// `n + m`, a distance that deleting all of `a` and inserting all of `b` reaches.
pub open spec fn search_limit(max: Option<usize>, n: int, m: int) -> int {
    match max {
        Some(k) => if k < n + m { k as int } else { n + m },
        None => n + m,
    }
}

/// Runs the greedy search of the edit graph of `a` and `b` for increasing
/// distances `d`, up to `max` (by default `n + m`).
///
/// Returns the first distance at which some diagonal reaches the end of both
/// sequences, together with the frontiers of all smaller distances, or `None`
/// when the budget runs out first. That distance is the edit distance of `a`
/// and `b`, so `None` comes exactly when the budget is below it.
pub fn shortest_edit_script<T: Eq>(a: &[T], b: &[T], max: Option<usize>) -> (r: Option<
    (usize, Vec<Vec<usize>>),
>)
    requires
        2 * (a@.len() + b@.len()) <= usize::MAX,
    ensures
        r matches Some((d, h)) ==> {
            &&& d <= search_limit(max, a@.len() as int, b@.len() as int)
            &&& h@.len() == d
            &&& history_wf(h@, a@.len() as int, b@.len() as int)
            &&& obeys_concrete_eq::<T>() ==> history_searched(h@, a@, b@)
        },
        search_limit(max, a@.len() as int, b@.len() as int) == a@.len() + b@.len() ==> r is Some,
        obeys_concrete_eq::<T>() && a@ == b@ ==> (r matches Some((d, h)) && d == 0),
        obeys_concrete_eq::<T>() ==> (r matches Some((d, h)) ==> is_edit_distance(a@, b@, d as int)),
        obeys_concrete_eq::<T>() && r is None ==> forall|s: Seq<EditCommand<T>>|
            transforms(s, a@, b@) ==> #[trigger] edit_count(s) > max->0,
        obeys_concrete_eq::<T>() && max is Some ==> forall|dd: int|
            #[trigger] is_edit_distance(a@, b@, dd) ==> (r is None <==> max->0 < dd),
{
    let n = a.len();
    let m = b.len();
    let limit: usize = match max {
        Some(k) => if k < n + m { k } else { n + m },
        None => n + m,
    };
    let ghost eqc = obeys_concrete_eq::<T>();
    let ghost same = eqc && a@ == b@;
    proof {
        reveal(obeys_concrete_eq);
    }
    let mut trace: Vec<Vec<usize>> = Vec::new();
    let mut prev: Vec<usize> = Vec::new();
    let mut d: usize = 0;
    let ghost mut paths: Seq<Seq<Seq<EditCommand<T>>>> = Seq::empty();
    while d <= limit
        invariant
            paths.len() == d,
            eqc ==> forall|l: int| 0 <= l < d ==> level_reached(#[trigger] paths[l], trace@[l]@, l, a@, b@),
            n == a@.len(),
            m == b@.len(),
            2 * (n + m) <= usize::MAX,
            limit == search_limit(max, n as int, m as int),
            d <= n + m,
            trace@.len() == d,
            history_wf(trace@, n as int, m as int),
            eqc == obeys_concrete_eq::<T>(),
            eqc ==> history_searched(trace@, a@, b@),
            d == 0 ==> prev@.len() == 0,
            d > 0 ==> prev@ == trace@[d - 1]@,
            same == (eqc && a@ == b@),
            same ==> d == 0,
        decreases limit + 1 - d,
    {
        proof {
            if d > 0 {
                assert(frontier_wf(trace@[d - 1]@, d - 1, n as int, m as int));
            }
        }
        let mut cur: Vec<usize> = Vec::new();
        let mut i: usize = 0;
        let ghost mut cur_paths: Seq<Seq<EditCommand<T>>> = Seq::empty();
        while i <= d
            invariant
                paths.len() == d,
                eqc ==> forall|l: int| 0 <= l < d ==> level_reached(#[trigger] paths[l], trace@[l]@, l, a@, b@),
                cur_paths.len() == i,
                eqc ==> forall|j: int| 0 <= j < i ==> reaches(#[trigger] cur_paths[j], a@, b@, cur@[j] as int, cur@[j] + d - 2 * j, d as int),
                n == a@.len(),
                m == b@.len(),
                2 * (n + m) <= usize::MAX,
                d <= n + m,
                d <= limit,
                limit == search_limit(max, n as int, m as int),
                trace@.len() == d,
                history_wf(trace@, n as int, m as int),
                eqc == obeys_concrete_eq::<T>(),
                eqc ==> history_searched(trace@, a@, b@),
                i <= d + 1,
                cur@.len() == i,
                d == 0 ==> prev@.len() == 0,
                d > 0 ==> prev@ == trace@[d - 1]@,
                d > 0 ==> frontier_wf(prev@, d - 1, n as int, m as int),
                forall|j: int|
                    0 <= j < i ==> {
                        let x = #[trigger] cur@[j] as int;
                        let y = x + d - 2 * j;
                        &&& j <= x <= n + d
                        &&& y <= m + d
                        &&& x >= furthest_x(prev@, j, d as int)
                        &&& eqc ==> !(x < n && y < m && a@[x] == b@[y])
                        &&& !(x >= n && y >= m)
                    },
                d == n + m ==> i <= n,
                same == (eqc && a@ == b@),
                same ==> d == 0 && i == 0,
            decreases d + 1 - i,
        {
            let x0 = find_furthest_x(&prev, i, d, Ghost(n as int), Ghost(m as int));
            let mut x = x0;
            let mut y: usize = (x - i) + (d - i);
            let ghost mut path: Seq<EditCommand<T>> = Seq::empty();
            proof {
                if eqc {
                    if d == 0 {
                        assert(a@.subrange(0, 0) =~= Seq::<T>::empty());
                        assert(b@.subrange(0, 0) =~= Seq::<T>::empty());
                    } else {
                        assert(level_reached(paths[d - 1], trace@[d - 1]@, d - 1, a@, b@));
                        if i == 0 || (i != d && prev@[i - 1] < prev@[i as int]) {
                            let px = prev@[i as int] as int;
                            assert(reaches(paths[d - 1][i as int], a@, b@, px, px + (d - 1) - 2 * i, d - 1));
                            path = lemma_move_down(paths[d - 1][i as int], a@, b@, px, px + (d - 1) - 2 * i, d - 1);
                        } else {
                            let px = prev@[i - 1] as int;
                            assert(reaches(paths[d - 1][i - 1], a@, b@, px, px + (d - 1) - 2 * (i - 1), d - 1));
                            path = lemma_move_right(paths[d - 1][i - 1], a@, b@, px, px + (d - 1) - 2 * (i - 1), d - 1);
                        }
                    }
                }
            }
            while x < n && y < m && same_element(a, b, x, y)
                invariant
                    eqc == obeys_concrete_eq::<T>(),
                    eqc ==> reaches(path, a@, b@, x as int, y as int, d as int),
                    n == a@.len(),
                    m == b@.len(),
                    2 * (n + m) <= usize::MAX,
                    d <= n + m,
                    i <= d,
                    x0 <= x,
                    i <= x <= n + d,
                    y == x + d - 2 * i,
                    y <= m + d,
                    same == (eqc && a@ == b@),
                    same ==> d == 0 && i == 0 && x == y,
                decreases n - x,
            {
                proof {
                    if eqc {
                        path = lemma_move_diagonal(path, a@, b@, x as int, y as int, d as int);
                    }
                }
                x = x + 1;
                y = y + 1;
            }
            cur.push(x);
            proof {
                cur_paths = cur_paths.push(path);
            }
            if x >= n && y >= m {
                proof {
                    if eqc {
                        assert(a@.subrange(0, n as int) =~= a@);
                        assert(b@.subrange(0, m as int) =~= b@);
                        assert(transforms(path, a@, b@));
                    }
                    assert forall|s: Seq<EditCommand<T>>| eqc && transforms(s, a@, b@) implies #[trigger] edit_count(s) >= d by {
                        if d > 0 {
                            assert(level_searched(trace@, 0, a@, b@));
                            assert(frontier_wf(trace@[0]@, 0, n as int, m as int));
                            assert(a@.subrange(0, n as int) =~= a@);
                            assert(b@.subrange(0, m as int) =~= b@);
                            lemma_no_shorter(a@, b@, trace@, s, 0, 0, 0, 0);
                        }
                    }
                    if eqc {
                        assert(edit_count(path) >= d);
                        assert(is_edit_distance(a@, b@, d as int));
                        assert forall|dd: int| #[trigger] is_edit_distance(a@, b@, dd) implies dd == d by {
                            lemma_distance_unique(a@, b@, dd, d as int);
                        }
                    }
                }
                return Some((d, trace));
            }
            i = i + 1;
        }
        let snapshot = cur.clone();
        assert(snapshot@ =~= cur@);
        let ghost old_trace = trace@;
        trace.push(snapshot);
        proof {
            assert(trace@[d as int]@ == cur@);
            assert forall|l: int| 0 <= l < trace@.len() implies frontier_wf(#[trigger] trace@[l]@, l, n as int, m as int) by {
                if l < d {
                    assert(trace@[l] == old_trace[l]);
                }
            }
            if eqc {
                assert forall|l: int| 0 <= l < trace@.len() implies #[trigger] level_searched(trace@, l, a@, b@) by {
                    if l < d {
                        assert(level_searched(old_trace, l, a@, b@));
                        assert(trace@[l] == old_trace[l]);
                        if l > 0 {
                            assert(trace@[l - 1] == old_trace[l - 1]);
                        }
                    } else {
                        assert forall|j: int| 0 <= j <= l implies {
                            let x = #[trigger] trace@[l]@[j] as int;
                            let y = x + l - 2 * j;
                            &&& (l > 0 ==> x >= furthest_x(trace@[l - 1]@, j, l))
                            &&& !(x < a@.len() && y < b@.len() && a@[x] == b@[y])
                            &&& !(x >= a@.len() && y >= b@.len())
                        } by {
                            if l > 0 {
                                assert(trace@[l - 1] == old_trace[l - 1]);
                            }
                        }
                    }
                }
            }
        }
        proof {
            paths = paths.push(cur_paths);
            if eqc {
                assert forall|l: int| 0 <= l < d + 1 implies level_reached(#[trigger] paths[l], trace@[l]@, l, a@, b@) by {
                    if l < d {
                        assert(trace@[l] == old_trace[l]);
                    }
                }
            }
        }
        prev = cur;
        d = d + 1;
    }
    proof {
        assert forall|s: Seq<EditCommand<T>>| eqc && transforms(s, a@, b@) implies #[trigger] edit_count(s) > max->0 by {
            assert(level_searched(trace@, 0, a@, b@));
            assert(frontier_wf(trace@[0]@, 0, n as int, m as int));
            assert(a@.subrange(0, n as int) =~= a@);
            assert(b@.subrange(0, m as int) =~= b@);
            lemma_no_shorter(a@, b@, trace@, s, 0, 0, 0, 0);
        }
        assert forall|dd: int| eqc && #[trigger] is_edit_distance(a@, b@, dd) implies max->0 < dd by {
            let w = choose|s: Seq<EditCommand<T>>| transforms(s, a@, b@) && edit_count(s) == dd;
            assert(edit_count(w) > max->0);
        }
    }
    None
}

/// The point reached right after the edit move that led to `(x, y)` at distance
/// `d`, and whether that move was down (an insertion) or right (a deletion),
/// decided from the frontier `v` of distance `d - 1` by the search's own rule.
/// `None` when `v` cannot have been recorded by a search that passed `(x, y)`.
fn back_step(v: &Vec<usize>, x: usize, y: usize, d: usize, n: usize, m: usize) -> (r:
    Option<(bool, usize, usize)>)
    requires
        x <= n,
        y <= m,
        2 * (n + m) <= usize::MAX,
        0 < d,
    ensures
        r matches Some((down, mx, my)) ==> mx <= x && my <= y && x - mx == y - my,
{
    if d > n + m || x + d < y {
        return None;
    }
    let s = x + d - y;
    if s % 2 != 0 || s / 2 > d || v.len() != d {
        return None;
    }
    let i = s / 2;
    if i == 0 || (i != d && v[i - 1] < v[i]) {
        let px = v[i];
        if px > x || px + d < 2 * i {
            return None;
        }
        Some((true, px, (px + d) - 2 * i))
    } else {
        let px = v[i - 1];
        if px >= x || px + 1 + d < 2 * i {
            return None;
        }
        Some((false, px + 1, (px + 1 + d) - 2 * i))
    }
}

proof fn lemma_prepend<T>(c: EditCommand<T>, t: Seq<EditCommand<T>>, p: int)
    ensures
        consumed(seq![c] + t) == match c {
            EditCommand::Insert(_, _) => consumed(t),
            EditCommand::Keep(e) => seq![e] + consumed(t),
            EditCommand::Delete(e, _) => seq![e] + consumed(t),
        },
        produced(seq![c] + t) == match c {
            EditCommand::Delete(_, _) => produced(t),
            EditCommand::Keep(e) => seq![e] + produced(t),
            EditCommand::Insert(e, _) => seq![e] + produced(t),
        },
        positions_from(seq![c] + t, p) == match c {
            EditCommand::Keep(_) => positions_from(t, p + 1),
            EditCommand::Delete(_, q) => q == p && positions_from(t, p + 1),
            EditCommand::Insert(_, q) => q == p && positions_from(t, p),
        },
{
    assert((seq![c] + t).drop_first() =~= t);
}

/// Walks the history of a search backwards from the end of both sequences and
/// returns the edit script, in forward order.
///
/// Matches are checked as they are walked over, and a walk that the history
/// cannot explain ends by deleting the rest of `a` and inserting the rest of
/// `b`, so the script is correct whatever history it is given.
pub fn reconstruct_shortest_edit<T: Copy + Eq>(
    a: &[T],
    b: &[T],
    distance: usize,
    trace: &[Vec<usize>],
) -> (r: Vec<EditCommand<T>>)
    requires
        2 * (a@.len() + b@.len()) <= usize::MAX,
    ensures
        obeys_concrete_eq::<T>() ==> transforms(r@, a@, b@),
        obeys_concrete_eq::<T>() && a@ == b@ && distance == 0 ==> r@ == keep_all(a@),
{
    let n = a.len();
    let m = b.len();
    let ghost eq = obeys_concrete_eq::<T>();
    let ghost same = eq && a@ == b@ && distance == 0;
    let mut x = n;
    let mut y = m;
    let mut d: usize = if distance < trace.len() { distance } else { trace.len() };
    let mut rev: Vec<EditCommand<T>> = Vec::new();
    let ghost mut tail: Seq<EditCommand<T>> = Seq::empty();
    proof {
        assert(a@.subrange(x as int, n as int) =~= Seq::<T>::empty());
        assert(b@.subrange(y as int, m as int) =~= Seq::<T>::empty());
        assert(keep_all(a@.subrange(x as int, n as int)) =~= tail);
    }
    let mut stuck = false;
    while d > 0 && !stuck
        invariant
            n == a@.len(),
            m == b@.len(),
            2 * (n + m) <= usize::MAX,
            x <= n,
            y <= m,
            d <= trace@.len(),
            rev@.len() == tail.len(),
            forall|j: int| 0 <= j < tail.len() ==> #[trigger] rev@[j] == tail[tail.len() - 1 - j],
            eq == obeys_concrete_eq::<T>(),
            eq ==> consumed(tail) == a@.subrange(x as int, n as int),
            eq ==> produced(tail) == b@.subrange(y as int, m as int),
            positions_from(tail, x as int),
            same == (eq && a@ == b@ && distance == 0),
            same ==> d == 0 && x == n && y == m && tail == keep_all(a@.subrange(x as int, n as int)),
        decreases d, if stuck { 0int } else { 1int },
    {
        match back_step(&trace[d - 1], x, y, d, n, m) {
            None => {
                stuck = true;
            },
            Some((down, mx, my)) => {
                while x > mx && y > my && same_element(a, b, x - 1, y - 1)
                    invariant
                        n == a@.len(),
                        m == b@.len(),
                        mx <= x <= n,
                        my <= y <= m,
                        x - mx == y - my,
                        rev@.len() == tail.len(),
                        forall|j: int|
                            0 <= j < tail.len() ==> #[trigger] rev@[j] == tail[tail.len() - 1 - j],
                        eq == obeys_concrete_eq::<T>(),
                        eq ==> consumed(tail) == a@.subrange(x as int, n as int),
                        eq ==> produced(tail) == b@.subrange(y as int, m as int),
                        positions_from(tail, x as int),
                    decreases x,
                {
                    let c = EditCommand::Keep(a[x - 1]);
                    proof {
                        lemma_prepend(c, tail, x - 1);
                        assert(a@.subrange(x - 1, n as int) =~= seq![a@[x - 1]] + a@.subrange(x as int, n as int));
                        assert(b@.subrange(y - 1, m as int) =~= seq![b@[y - 1]] + b@.subrange(y as int, m as int));
                        tail = seq![c] + tail;
                    }
                    rev.push(c);
                    x = x - 1;
                    y = y - 1;
                }
                if x == mx && y == my && ((down && y > 0) || (!down && x > 0)) {
                    let c = if down {
                        EditCommand::Insert(b[y - 1], x)
                    } else {
                        EditCommand::Delete(a[x - 1], x - 1)
                    };
                    proof {
                        if down {
                            lemma_prepend(c, tail, x as int);
                            assert(b@.subrange(y - 1, m as int) =~= seq![b@[y - 1]] + b@.subrange(y as int, m as int));
                        } else {
                            lemma_prepend(c, tail, x - 1);
                            assert(a@.subrange(x - 1, n as int) =~= seq![a@[x - 1]] + a@.subrange(x as int, n as int));
                        }
                        tail = seq![c] + tail;
                    }
                    rev.push(c);
                    if down {
                        y = y - 1;
                    } else {
                        x = x - 1;
                    }
                    d = d - 1;
                } else {
                    stuck = true;
                }
            },
        }
    }
    while x > 0 && y > 0 && same_element(a, b, x - 1, y - 1)
        invariant
            n == a@.len(),
            m == b@.len(),
            x <= n,
            y <= m,
            rev@.len() == tail.len(),
            forall|j: int| 0 <= j < tail.len() ==> #[trigger] rev@[j] == tail[tail.len() - 1 - j],
            eq == obeys_concrete_eq::<T>(),
            eq ==> consumed(tail) == a@.subrange(x as int, n as int),
            eq ==> produced(tail) == b@.subrange(y as int, m as int),
            positions_from(tail, x as int),
            same == (eq && a@ == b@ && distance == 0),
            same ==> x == y && tail == keep_all(a@.subrange(x as int, n as int)),
        decreases x,
    {
        let c = EditCommand::Keep(a[x - 1]);
        proof {
            lemma_prepend(c, tail, x - 1);
            assert(a@.subrange(x - 1, n as int) =~= seq![a@[x - 1]] + a@.subrange(x as int, n as int));
            assert(b@.subrange(y - 1, m as int) =~= seq![b@[y - 1]] + b@.subrange(y as int, m as int));
            assert(keep_all(a@.subrange(x - 1, n as int)) =~= seq![c] + keep_all(a@.subrange(x as int, n as int)));
            tail = seq![c] + tail;
        }
        rev.push(c);
        x = x - 1;
        y = y - 1;
    }
    proof {
        if same {
            assert(x == 0);
        }
    }
    let x0 = x;
    while y > 0
        invariant
            n == a@.len(),
            m == b@.len(),
            x == x0 <= n,
            y <= m,
            rev@.len() == tail.len(),
            forall|j: int| 0 <= j < tail.len() ==> #[trigger] rev@[j] == tail[tail.len() - 1 - j],
            eq == obeys_concrete_eq::<T>(),
            eq ==> consumed(tail) == a@.subrange(x as int, n as int),
            eq ==> produced(tail) == b@.subrange(y as int, m as int),
            positions_from(tail, x as int),
            same == (eq && a@ == b@ && distance == 0),
            same ==> x == 0 && y == 0 && tail == keep_all(a@),
        decreases y,
    {
        let c = EditCommand::Insert(b[y - 1], x);
        proof {
            lemma_prepend(c, tail, x as int);
            assert(b@.subrange(y - 1, m as int) =~= seq![b@[y - 1]] + b@.subrange(y as int, m as int));
            tail = seq![c] + tail;
        }
        rev.push(c);
        y = y - 1;
    }
    while x > 0
        invariant
            n == a@.len(),
            m == b@.len(),
            x <= n,
            y == 0,
            rev@.len() == tail.len(),
            forall|j: int| 0 <= j < tail.len() ==> #[trigger] rev@[j] == tail[tail.len() - 1 - j],
            eq == obeys_concrete_eq::<T>(),
            eq ==> consumed(tail) == a@.subrange(x as int, n as int),
            eq ==> produced(tail) == b@.subrange(0, m as int),
            positions_from(tail, x as int),
            same == (eq && a@ == b@ && distance == 0),
            same ==> x == 0 && tail == keep_all(a@),
        decreases x,
    {
        let c = EditCommand::Delete(a[x - 1], x - 1);
        proof {
            lemma_prepend(c, tail, x - 1);
            assert(a@.subrange(x - 1, n as int) =~= seq![a@[x - 1]] + a@.subrange(x as int, n as int));
            tail = seq![c] + tail;
        }
        rev.push(c);
        x = x - 1;
    }
    let mut script: Vec<EditCommand<T>> = Vec::new();
    while rev.len() > 0
        invariant
            rev@.len() + script@.len() == tail.len(),
            forall|j: int| 0 <= j < rev@.len() ==> #[trigger] rev@[j] == tail[tail.len() - 1 - j],
            forall|j: int| 0 <= j < script@.len() ==> #[trigger] script@[j] == tail[j],
        decreases rev.len(),
    {
        let c = rev.pop().unwrap();
        script.push(c);
    }
    proof {
        assert(script@ =~= tail);
        assert(a@.subrange(0, n as int) =~= a@);
        assert(b@.subrange(0, m as int) =~= b@);
    }
    script
}


/// Searches for the edit distance of `a` and `b` within the budget `max` and,
/// when one is found, reconstructs an edit script from the search's history.
///
/// The distance returned is the edit distance, and a result is returned exactly
/// when the budget is unset or at least that distance. For identical sequences
/// it is distance `0` with a script that keeps every element; and whenever a
/// script is returned, applying it to `a` yields `b`.
pub fn diff<T: Copy + Eq>(a: &[T], b: &[T], max: Option<usize>) -> (r: Option<
    (usize, Vec<EditCommand<T>>),
>)
    requires
        2 * (a@.len() + b@.len()) <= usize::MAX,
    ensures
        r matches Some((d, s)) ==> {
            &&& d <= search_limit(max, a@.len() as int, b@.len() as int)
            &&& obeys_concrete_eq::<T>() ==> transforms(s@, a@, b@)
            &&& obeys_concrete_eq::<T>() ==> is_edit_distance(a@, b@, d as int)
        },
        obeys_concrete_eq::<T>() && max is Some ==> forall|dd: int|
            #[trigger] is_edit_distance(a@, b@, dd) ==> (r is None <==> max->0 < dd),
        search_limit(max, a@.len() as int, b@.len() as int) == a@.len() + b@.len() ==> r is Some,
        obeys_concrete_eq::<T>() && a@ == b@ ==> (r matches Some((d, s)) && d == 0 && s@
            == keep_all(a@)),
{
    match shortest_edit_script(a, b, max) {
        Some((d, trace)) => {
            let script = reconstruct_shortest_edit(a, b, d, trace.as_slice());
            Some((d, script))
        },
        None => None,
    }
}

} // verus!
