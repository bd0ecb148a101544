//! A grid of cells that buckets items by position, so that an item's
//! neighbours can be found by looking at the cells around its own.
//!
//! Items are named by their number in a list that the caller keeps; a cell
//! holds the numbers of the items that lie in it, in the order they were put
//! there. Index `x` picks a column of cells, index `y` a cell in the column.
use vstd::prelude::*;
use vstd::multiset::Multiset;

verus! {

/// The cells of a grid, seen as sequences: `cells[x][y]` is the cell at
/// `(x, y)`.
pub type CellsView = Seq<Seq<Seq<usize>>>;

/// `cells` has `size.0` columns of `size.1` cells each.
pub open spec fn has_size(cells: CellsView, size: (usize, usize)) -> bool {
    &&& cells.len() == size.0
    &&& forall|x: int| 0 <= x < size.0 ==> (#[trigger] cells[x]).len() == size.1
}

/// A grid of `size.0` by `size.1` empty cells.
pub open spec fn empty_cells(size: (usize, usize)) -> CellsView {
    Seq::new(size.0 as nat, |x: int| Seq::new(size.1 as nat, |y: int| Seq::<usize>::empty()))
}

/// The numbers, in increasing order, of those among the first `n` items
/// whose cell is `(x, y)`.
pub open spec fn ids_at(cells_of: Seq<(usize, usize)>, n: nat, x: int, y: int) -> Seq<usize>
    decreases n,
{
    if n == 0 {
        Seq::empty()
    } else {
        let prev = ids_at(cells_of, (n - 1) as nat, x, y);
        if cells_of[n - 1].0 == x && cells_of[n - 1].1 == y {
            prev.push((n - 1) as usize)
        } else {
            prev
        }
    }
}

/// The cells of a `size` grid into which the first `n` items have been put,
/// item `i` into cell `cells_of[i]`.
pub open spec fn placed(size: (usize, usize), cells_of: Seq<(usize, usize)>, n: nat) -> CellsView {
    Seq::new(
        size.0 as nat,
        |x: int| Seq::new(size.1 as nat, |y: int| ids_at(cells_of, n, x, y)),
    )
}

/// Every item of the grid, column after column, each column from its first
/// cell to its last.
pub open spec fn all_items(cells: CellsView) -> Seq<usize> {
    cells.map_values(|column: Seq<Seq<usize>>| column.flatten()).flatten()
}

/// The items of the listed cells, one cell after the other.
pub open spec fn gather(cells: CellsView, list: Seq<(usize, usize)>) -> Seq<usize> {
    list.map_values(|c: (usize, usize)| cells[c.0 as int][c.1 as int]).flatten()
}

/// The cells whose items count as neighbours of an item in cell `index`, in
/// the order they are collected. Column `x - 1` is looked at only when
/// `x > 1`, row `y - 1` only when `y > 1`; column `x + 1` only when
/// `x < limit.0`, row `y + 1` only when `y < limit.1`. The item's own cell
/// comes last but one, and the last cell of the grid always comes last.
pub open spec fn neighbor_cells(
    index: (usize, usize),
    limit: (usize, usize),
    size: (usize, usize),
) -> Seq<(usize, usize)> {
    let x = index.0;
    let y = index.1;
    let x_0 = x <= 1;
    let y_0 = y <= 1;
    let x_max = x >= limit.0;
    let y_max = y >= limit.1;
    let left: Seq<(usize, usize)> = if !x_0 {
        side_cells((x - 1) as usize, y, y_0, y_max)
    } else {
        seq![]
    };
    let right: Seq<(usize, usize)> = if !x_max {
        side_cells((x + 1) as usize, y, y_0, y_max)
    } else {
        seq![]
    };
    left + right + own_column_cells(x, y, y_0, y_max) + seq![
        ((size.0 - 1) as usize, (size.1 - 1) as usize),
    ]
}

/// The cells of column `col` beside an item in row `y`: the cell in row
/// `y`, then the one above unless `y_0`, then the one below unless `y_max`.
pub open spec fn side_cells(col: usize, y: usize, y_0: bool, y_max: bool) -> Seq<(usize, usize)> {
    seq![(col, y)] + (if !y_0 {
        seq![(col, (y - 1) as usize)]
    } else {
        seq![]
    }) + (if !y_max {
        seq![(col, (y + 1) as usize)]
    } else {
        seq![]
    })
}

/// The cells of an item's own column: the one below unless `y_max`, the one
/// above unless `y_0`, then its own cell.
pub open spec fn own_column_cells(x: usize, y: usize, y_0: bool, y_max: bool) -> Seq<
    (usize, usize),
> {
    (if !y_max {
        seq![(x, (y + 1) as usize)]
    } else {
        seq![]
    }) + (if !y_0 {
        seq![(x, (y - 1) as usize)]
    } else {
        seq![]
    }) + seq![(x, y)]
}

/// Looking up the neighbours of cell `index` stays inside the grid: the
/// cells after it in either direction exist wherever the limits say to
/// look at them.
pub open spec fn neighbors_in_range(
    index: (usize, usize),
    limit: (usize, usize),
    size: (usize, usize),
) -> bool {
    &&& index.0 < size.0
    &&& index.1 < size.1
    &&& index.0 < limit.0 ==> index.0 + 1 < size.0
    &&& index.1 < limit.1 ==> index.1 + 1 < size.1
}

/// Updating element `i` of a sequence of sequences to `e` changes the
/// multiset of the flattened sequence by taking away `s[i]` and adding `e`.
pub proof fn lemma_flatten_update_multiset<A>(s: Seq<Seq<A>>, i: int, e: Seq<A>)
    requires
        0 <= i < s.len(),
    ensures
        s.update(i, e).flatten().to_multiset().add(s[i].to_multiset()) =~= s.flatten().to_multiset().add(
            e.to_multiset(),
        ),
    decreases s.len(),
{
    broadcast use vstd::multiset::group_multiset_axioms;

    let t = s.update(i, e);
    assert(s.flatten() == s[0] + s.drop_first().flatten());
    assert(t.flatten() == t[0] + t.drop_first().flatten());
    vstd::seq_lib::lemma_multiset_commutative(s[0], s.drop_first().flatten());
    vstd::seq_lib::lemma_multiset_commutative(t[0], t.drop_first().flatten());
    let lhs = t.flatten().to_multiset().add(s[i].to_multiset());
    let rhs = s.flatten().to_multiset().add(e.to_multiset());
    if i == 0 {
        assert(t.drop_first() =~= s.drop_first());
        assert forall|a: A| #[trigger] lhs.count(a) == rhs.count(a) by {}
    } else {
        assert(t.drop_first() =~= s.drop_first().update(i - 1, e));
        lemma_flatten_update_multiset(s.drop_first(), i - 1, e);
        let inner_l = t.drop_first().flatten().to_multiset().add(s[i].to_multiset());
        let inner_r = s.drop_first().flatten().to_multiset().add(e.to_multiset());
        assert forall|a: A| #[trigger] lhs.count(a) == rhs.count(a) by {
            assert(inner_l.count(a) == inner_r.count(a));
        }
    }
}

/// Putting item `id` into a cell adds `id` once to the grid's items.
pub proof fn lemma_insert_items_multiset(
    cells: CellsView,
    size: (usize, usize),
    index: (usize, usize),
    id: usize,
)
    requires
        has_size(cells, size),
        index.0 < size.0,
        index.1 < size.1,
    ensures
        all_items(
            cells.update(
                index.0 as int,
                cells[index.0 as int].update(
                    index.1 as int,
                    cells[index.0 as int][index.1 as int].push(id),
                ),
            ),
        ).to_multiset() =~= all_items(cells).to_multiset().insert(id),
{
    broadcast use vstd::multiset::group_multiset_axioms;

    let x = index.0 as int;
    let y = index.1 as int;
    let col = cells[x];
    let cell = col[y];
    let new_col = col.update(y, cell.push(id));
    let new_cells = cells.update(x, new_col);
    let f = |column: Seq<Seq<usize>>| column.flatten();
    let cols = cells.map_values(f);
    let new_cols = new_cells.map_values(f);
    assert(new_cols =~= cols.update(x, new_col.flatten()));
    lemma_flatten_update_multiset(col, y, cell.push(id));
    vstd::seq_lib::to_multiset_build(cell, id);
    let m_col = col.flatten().to_multiset();
    let m_new_col = new_col.flatten().to_multiset();
    assert(m_new_col =~= m_col.insert(id)) by {
        assert forall|t: usize| #[trigger] m_new_col.count(t) == m_col.insert(id).count(t) by {
            assert(m_new_col.add(cell.to_multiset()).count(t) == m_col.add(
                cell.push(id).to_multiset(),
            ).count(t));
        }
    }
    lemma_flatten_update_multiset(cols, x, new_col.flatten());
    let m_all = cols.flatten().to_multiset();
    let m_new_all = new_cols.flatten().to_multiset();
    assert(m_new_all =~= m_all.insert(id)) by {
        assert forall|t: usize| #[trigger] m_new_all.count(t) == m_all.insert(id).count(t) by {
            assert(m_new_all.add(cols[x].to_multiset()).count(t) == m_all.add(
                new_col.flatten().to_multiset(),
            ).count(t));
        }
    }
}

/// Putting item `n` into its cell turns the grid of the first `n` items into
/// the grid of the first `n + 1`.
pub proof fn lemma_placed_step(size: (usize, usize), cells_of: Seq<(usize, usize)>, n: nat)
    requires
        n < cells_of.len(),
        cells_of[n as int].0 < size.0,
        cells_of[n as int].1 < size.1,
    ensures
        placed(size, cells_of, n + 1) == placed(size, cells_of, n).update(
            cells_of[n as int].0 as int,
            placed(size, cells_of, n)[cells_of[n as int].0 as int].update(
                cells_of[n as int].1 as int,
                placed(size, cells_of, n)[cells_of[n as int].0 as int][cells_of[n as int].1 as int].push(
                    n as usize,
                ),
            ),
        ),
{
    let before = placed(size, cells_of, n);
    let after = placed(size, cells_of, n + 1);
    let x = cells_of[n as int].0 as int;
    let y = cells_of[n as int].1 as int;
    let expect = before.update(x, before[x].update(y, before[x][y].push(n as usize)));
    assert forall|i: int| 0 <= i < size.0 implies #[trigger] after[i] =~= expect[i] by {
        assert forall|j: int| 0 <= j < size.1 implies #[trigger] after[i][j] =~= expect[i][j] by {
            assert(after[i][j] == ids_at(cells_of, n + 1, i, j));
            assert(before[i][j] == ids_at(cells_of, n, i, j));
        }
    }
    assert(after =~= expect);
}

/// The numbers `0 .. n`.
pub open spec fn first_ids(n: nat) -> Seq<usize> {
    Seq::new(n, |i: int| i as usize)
}

/// A grid built from a list of items holds every one of them exactly once:
/// its items are, up to order, the numbers `0 .. n`.
pub proof fn lemma_placed_items(size: (usize, usize), cells_of: Seq<(usize, usize)>, n: nat)
    requires
        n <= cells_of.len(),
        forall|i: int|
            0 <= i < n ==> (#[trigger] cells_of[i]).0 < size.0 && cells_of[i].1 < size.1,
    ensures
        has_size(placed(size, cells_of, n), size),
        all_items(placed(size, cells_of, n)).to_multiset() =~= first_ids(n).to_multiset(),
    decreases n,
{
    broadcast use vstd::multiset::group_multiset_axioms;

    let v = placed(size, cells_of, n);
    assert(has_size(v, size));
    if n == 0 {
        let f = |column: Seq<Seq<usize>>| column.flatten();
        assert forall|x: int| 0 <= x < v.len() implies #[trigger] v.map_values(f)[x] =~= Seq::<
            usize,
        >::empty() by {
            let col = v[x];
            assert forall|k: int| 0 <= k <= col.len() implies #[trigger] col.take(k).flatten()
                =~= Seq::<usize>::empty() by {
                lemma_flatten_empties(col, k);
            }
            assert(col.take(col.len() as int) =~= col);
        }
        lemma_flatten_all_empty(v.map_values(f));
        assert(first_ids(0) =~= Seq::<usize>::empty());
    } else {
        let m = (n - 1) as nat;
        lemma_placed_items(size, cells_of, m);
        lemma_placed_step(size, cells_of, m);
        lemma_insert_items_multiset(placed(size, cells_of, m), size, cells_of[m as int], m as usize);
        assert(first_ids(n) =~= first_ids(m).push(m as usize));
        vstd::seq_lib::to_multiset_build(first_ids(m), m as usize);
    }
}

proof fn lemma_flatten_empties(col: Seq<Seq<usize>>, k: int)
    requires
        0 <= k <= col.len(),
        forall|j: int| 0 <= j < col.len() ==> (#[trigger] col[j]).len() == 0,
    ensures
        col.take(k).flatten() =~= Seq::<usize>::empty(),
    decreases k,
{
    if k > 0 {
        lemma_flatten_empties(col, k - 1);
        assert(col.take(k) =~= col.take(k - 1).push(col[k - 1]));
        col.take(k - 1).lemma_flatten_push(col[k - 1]);
    }
}

proof fn lemma_flatten_all_empty(s: Seq<Seq<usize>>)
    requires
        forall|j: int| 0 <= j < s.len() ==> (#[trigger] s[j]).len() == 0,
    ensures
        s.flatten() =~= Seq::<usize>::empty(),
    decreases s.len(),
{
    if s.len() > 0 {
        lemma_flatten_all_empty(s.drop_first());
    }
}

/// The cells looked at for the neighbours of cell `index` are the cell
/// itself, cells next to it (diagonals included), and the grid's last cell.
pub proof fn lemma_neighbor_cells_nearby(
    index: (usize, usize),
    limit: (usize, usize),
    size: (usize, usize),
)
    requires
        neighbors_in_range(index, limit, size),
    ensures
        forall|k: int|
            0 <= k < neighbor_cells(index, limit, size).len() ==> {
                let c = #[trigger] neighbor_cells(index, limit, size)[k];
                ||| (index.0 - 1 <= c.0 <= index.0 + 1 && index.1 - 1 <= c.1 <= index.1 + 1)
                ||| c == ((size.0 - 1) as usize, (size.1 - 1) as usize)
            },
        neighbor_cells(index, limit, size).contains(index),
{
    let list = neighbor_cells(index, limit, size);
    assert(list[list.len() - 2] == index);
}

/// The neighbours found for an item include every item of its own cell.
pub proof fn lemma_neighbors_include_own_cell(
    cells: CellsView,
    index: (usize, usize),
    limit: (usize, usize),
    size: (usize, usize),
)
    requires
        has_size(cells, size),
        neighbors_in_range(index, limit, size),
    ensures
        forall|id: usize|
            cells[index.0 as int][index.1 as int].contains(id) ==> #[trigger] gather(
                cells,
                neighbor_cells(index, limit, size),
            ).contains(id),
{
    let list = neighbor_cells(index, limit, size);
    let n = list.len();
    let prefix = list.take(n - 2);
    let corner = list[n - 1];
    let f = |c: (usize, usize)| cells[c.0 as int][c.1 as int];
    assert(list =~= prefix.push(index).push(corner));
    assert(list.map_values(f) =~= prefix.map_values(f).push(f(index)).push(f(corner)));
    prefix.map_values(f).lemma_flatten_push(f(index));
    prefix.map_values(f).push(f(index)).lemma_flatten_push(f(corner));
    let own = cells[index.0 as int][index.1 as int];
    let whole = gather(cells, list);
    assert(whole =~= prefix.map_values(f).flatten() + own + f(corner));
    assert forall|id: usize| own.contains(id) implies #[trigger] whole.contains(id) by {
        let j = choose|j: int| 0 <= j < own.len() && own[j] == id;
        assert(whole[prefix.map_values(f).flatten().len() + j] == id);
    }
}

/// An element of one of the sequences is an element of their concatenation.
pub proof fn lemma_flatten_contains<A>(s: Seq<Seq<A>>, k: int, a: A)
    requires
        0 <= k < s.len(),
        s[k].contains(a),
    ensures
        s.flatten().contains(a),
    decreases s.len(),
{
    assert(s.flatten() == s[0] + s.drop_first().flatten());
    if k == 0 {
        let j = choose|j: int| 0 <= j < s[0].len() && s[0][j] == a;
        assert(s.flatten()[j] == a);
    } else {
        lemma_flatten_contains(s.drop_first(), k - 1, a);
        let rest = s.drop_first().flatten();
        let j = choose|j: int| 0 <= j < rest.len() && rest[j] == a;
        assert(s.flatten()[s[0].len() + j] == a);
    }
}

/// An element of the concatenation is an element of one of the sequences.
pub proof fn lemma_flatten_member<A>(s: Seq<Seq<A>>, a: A)
    requires
        s.flatten().contains(a),
    ensures
        exists|k: int| 0 <= k < s.len() && (#[trigger] s[k]).contains(a),
    decreases s.len(),
{
    if s.len() == 0 {
    } else {
        assert(s.flatten() == s[0] + s.drop_first().flatten());
        let j = choose|j: int| 0 <= j < s.flatten().len() && s.flatten()[j] == a;
        if j < s[0].len() {
            assert(s[0][j] == a);
            assert(s[0].contains(a));
        } else {
            let rest = s.drop_first().flatten();
            assert(rest[j - s[0].len()] == a);
            lemma_flatten_member(s.drop_first(), a);
            let k = choose|k: int| 0 <= k < s.drop_first().len() && (#[trigger] s.drop_first()[k]).contains(a);
            assert(s[k + 1] == s.drop_first()[k]);
        }
    }
}

/// The neighbours found for an item in cell `index` hold every item of
/// every cell next to it (diagonals included) that the limits let the
/// lookup reach: the next column when `x < limit.0`, the previous column when
/// `x > 1`, the next row when `y < limit.1`, the previous row when `y > 1`.
pub proof fn lemma_neighbors_complete(
    cells: CellsView,
    index: (usize, usize),
    limit: (usize, usize),
    size: (usize, usize),
)
    requires
        has_size(cells, size),
        neighbors_in_range(index, limit, size),
    ensures
        forall|cx: int, cy: int, id: usize|
            index.0 - 1 <= cx <= index.0 + 1 && index.1 - 1 <= cy <= index.1 + 1 && (cx == index.0
                + 1 ==> index.0 < limit.0) && (cx == index.0 - 1 ==> index.0 > 1) && (cy == index.1
                + 1 ==> index.1 < limit.1) && (cy == index.1 - 1 ==> index.1 > 1)
                && #[trigger] cells[cx][cy].contains(id) ==> gather(
                cells,
                neighbor_cells(index, limit, size),
            ).contains(id),
{
    broadcast use vstd::seq_lib::group_seq_properties;

    let list = neighbor_cells(index, limit, size);
    let f = |c: (usize, usize)| cells[c.0 as int][c.1 as int];
    assert forall|cx: int, cy: int, id: usize|
        index.0 - 1 <= cx <= index.0 + 1 && index.1 - 1 <= cy <= index.1 + 1 && (cx == index.0 + 1
            ==> index.0 < limit.0) && (cx == index.0 - 1 ==> index.0 > 1) && (cy == index.1 + 1
            ==> index.1 < limit.1) && (cy == index.1 - 1 ==> index.1 > 1)
            && #[trigger] cells[cx][cy].contains(id) implies gather(cells, list).contains(id) by {
        let c: (usize, usize) = (cx as usize, cy as usize);
        assert(list.contains(c));
        let k = choose|k: int| 0 <= k < list.len() && list[k] == c;
        assert(list.map_values(f)[k] == cells[cx][cy]);
        lemma_flatten_contains(list.map_values(f), k, id);
    }
}

/// Every neighbour found for an item in cell `index` lies in a cell next to
/// it (diagonals included), in its own cell, or in the grid's last cell.
pub proof fn lemma_neighbors_sound(
    cells: CellsView,
    index: (usize, usize),
    limit: (usize, usize),
    size: (usize, usize),
)
    requires
        has_size(cells, size),
        neighbors_in_range(index, limit, size),
    ensures
        forall|id: usize|
            #[trigger] gather(cells, neighbor_cells(index, limit, size)).contains(id) ==> exists|
                cx: int,
                cy: int,
            |
                0 <= cx < size.0 && 0 <= cy < size.1 && ((index.0 - 1 <= cx <= index.0 + 1
                    && index.1 - 1 <= cy <= index.1 + 1) || (cx == size.0 - 1 && cy == size.1 - 1))
                    && #[trigger] cells[cx][cy].contains(id),
{
    let list = neighbor_cells(index, limit, size);
    let f = |c: (usize, usize)| cells[c.0 as int][c.1 as int];
    lemma_neighbor_cells_nearby(index, limit, size);
    assert forall|id: usize| #[trigger] gather(cells, list).contains(id) implies exists|
        cx: int,
        cy: int,
    |
        0 <= cx < size.0 && 0 <= cy < size.1 && ((index.0 - 1 <= cx <= index.0 + 1 && index.1 - 1
            <= cy <= index.1 + 1) || (cx == size.0 - 1 && cy == size.1 - 1))
            && #[trigger] cells[cx][cy].contains(id) by {
        lemma_flatten_member(list.map_values(f), id);
        let k = choose|k: int| 0 <= k < list.len() && (#[trigger] list.map_values(f)[k]).contains(id);
        let c = list[k];
        assert(list.map_values(f)[k] == cells[c.0 as int][c.1 as int]);
        assert(cells[c.0 as int][c.1 as int].contains(id));
    }
}

/// The items placed in a cell are exactly the numbers of the items whose
/// cell it is, in increasing order.
pub proof fn lemma_ids_at(cells_of: Seq<(usize, usize)>, n: nat, x: int, y: int)
    requires
        n <= cells_of.len(),
        n <= usize::MAX,
    ensures
        forall|id: usize|
            #[trigger] ids_at(cells_of, n, x, y).contains(id) <==> (id < n && cells_of[id as int].0
                == x && cells_of[id as int].1 == y),
        forall|i: int| 0 <= i < ids_at(cells_of, n, x, y).len() ==> #[trigger] ids_at(cells_of, n, x, y)[i] < n,
        forall|i: int, j: int|
            0 <= i < j < ids_at(cells_of, n, x, y).len() ==> #[trigger] ids_at(cells_of, n, x, y)[i]
                < #[trigger] ids_at(cells_of, n, x, y)[j],
    decreases n,
{
    broadcast use vstd::seq_lib::group_seq_properties;

    if n > 0 {
        let m = (n - 1) as nat;
        lemma_ids_at(cells_of, m, x, y);
        let prev = ids_at(cells_of, m, x, y);
        let cur = ids_at(cells_of, n, x, y);
        assert(cur == if cells_of[n - 1].0 == x && cells_of[n - 1].1 == y {
            prev.push((n - 1) as usize)
        } else {
            prev
        });
        if cells_of[m as int].0 == x && cells_of[m as int].1 == y {
            assert(cur == prev.push(m as usize));
            assert forall|id: usize| #[trigger] cur.contains(id) <==> (id < n && cells_of[id as int].0
                == x && cells_of[id as int].1 == y) by {
                if cur.contains(id) {
                    let i = choose|i: int| 0 <= i < cur.len() && cur[i] == id;
                    if i < prev.len() {
                        assert(cur[i] == prev[i]);
                        assert(prev[i] == id);
                        assert(prev.contains(id));
                    }
                }
                if id < n && cells_of[id as int].0 == x && cells_of[id as int].1 == y {
                    if id == m {
                        assert(cur[cur.len() - 1] == id);
                    } else {
                        assert(prev.contains(id));
                        let i = choose|i: int| 0 <= i < prev.len() && prev[i] == id;
                        assert(cur[i] == prev[i]);
                        assert(cur[i] == id);
                    }
                }
            }
            assert forall|i: int, j: int| 0 <= i < j < cur.len() implies #[trigger] cur[i]
                < #[trigger] cur[j] by {
                assert(cur[i] == prev[i]);
                if j == cur.len() - 1 {
                    assert(cur[j] == m);
                    assert(prev[i] < m);
                } else {
                    assert(cur[j] == prev[j]);
                    assert(prev[i] < prev[j]);
                }
            }
        } else {
            assert(cur == prev);
            assert forall|id: usize| #[trigger] cur.contains(id) <==> (id < n && cells_of[id as int].0
                == x && cells_of[id as int].1 == y) by {
                if id == m {
                    assert(!(prev.contains(id)));
                }
            }
        }
    }
}

/// The sum of the lengths of the sequences.
pub open spec fn seq_lens<A>(s: Seq<Seq<A>>) -> nat
    decreases s.len(),
{
    if s.len() == 0 {
        0
    } else {
        s[0].len() + seq_lens(s.drop_first())
    }
}

/// The number of items held in all the cells together.
pub open spec fn total_len(cells: CellsView) -> nat
    decreases cells.len(),
{
    if cells.len() == 0 {
        0
    } else {
        seq_lens(cells[0]) + total_len(cells.drop_first())
    }
}

proof fn lemma_flatten_len<A>(s: Seq<Seq<A>>)
    ensures
        s.flatten().len() == seq_lens(s),
    decreases s.len(),
{
    if s.len() > 0 {
        lemma_flatten_len(s.drop_first());
    }
}

proof fn lemma_all_items_len(cells: CellsView)
    ensures
        all_items(cells).len() == total_len(cells),
        seq_lens(cells.map_values(|column: Seq<Seq<usize>>| column.flatten())) == total_len(cells),
    decreases cells.len(),
{
    let f = |column: Seq<Seq<usize>>| column.flatten();
    lemma_flatten_len(cells.map_values(f));
    if cells.len() > 0 {
        lemma_all_items_len(cells.drop_first());
        lemma_flatten_len(cells[0]);
        assert(cells.map_values(f).drop_first() =~= cells.drop_first().map_values(f));
    }
}

/// An item is among a grid's items exactly when some cell holds it.
proof fn lemma_all_items_contains(cells: CellsView, id: usize)
    ensures
        all_items(cells).contains(id) <==> exists|x: int, y: int|
            0 <= x < cells.len() && 0 <= y < cells[x].len() && #[trigger] cells[x][y].contains(id),
{
    let f = |column: Seq<Seq<usize>>| column.flatten();
    let cols = cells.map_values(f);
    if all_items(cells).contains(id) {
        lemma_flatten_member(cols, id);
        let k = choose|k: int| 0 <= k < cols.len() && (#[trigger] cols[k]).contains(id);
        assert(cols[k] == cells[k].flatten());
        lemma_flatten_member(cells[k], id);
        let j = choose|j: int| 0 <= j < cells[k].len() && (#[trigger] cells[k][j]).contains(id);
        assert(cells[k][j].contains(id));
    }
    if exists|x: int, y: int|
        0 <= x < cells.len() && 0 <= y < cells[x].len() && #[trigger] cells[x][y].contains(id) {
        let (x, y) = choose|x: int, y: int|
            0 <= x < cells.len() && 0 <= y < cells[x].len() && #[trigger] cells[x][y].contains(id);
        lemma_flatten_contains(cells[x], y, id);
        assert(cols[x] == cells[x].flatten());
        lemma_flatten_contains(cols, x, id);
    }
}

/// A grid of cells of item numbers.
#[derive(Clone, Debug)]
pub struct Grid {
    columns: usize,
    rows: usize,
    cells: Vec<Vec<Vec<usize>>>,
}

impl View for Grid {
    type V = CellsView;

    closed spec fn view(&self) -> CellsView {
        self.cells@.map_values(
            |column: Vec<Vec<usize>>| column@.map_values(|cell: Vec<usize>| cell@),
        )
    }
}

impl Grid {
    /// The number of columns and of cells per column.
    pub closed spec fn size_spec(&self) -> (usize, usize) {
        (self.columns, self.rows)
    }

    /// The grid's cells have the shape its size says.
    pub closed spec fn wf(&self) -> bool {
        &&& self.cells@.len() == self.columns
        &&& forall|x: int|
            0 <= x < self.columns ==> (#[trigger] self.cells@[x])@.len() == self.rows
    }

    proof fn lemma_view_size(&self)
        requires
            self.wf(),
        ensures
            has_size(self@, self.size_spec()),
    {
        assert forall|x: int| 0 <= x < self.columns implies (#[trigger] self@[x]).len()
            == self.rows by {
            assert(self@[x] == self.cells@[x]@.map_values(|cell: Vec<usize>| cell@));
        }
    }

    /// `size.0` columns of `size.1` empty cells.
    pub fn init_grid_vec(size: (usize, usize)) -> (cells: Vec<Vec<Vec<usize>>>)
        ensures
            cells@.len() == size.0,
            forall|x: int| 0 <= x < size.0 ==> (#[trigger] cells@[x])@.len() == size.1,
            forall|x: int, y: int|
                0 <= x < size.0 && 0 <= y < size.1 ==> (#[trigger] cells@[x]@[y])@.len() == 0,
    {
        let mut x_array: Vec<Vec<Vec<usize>>> = Vec::new();
        let mut x: usize = 0;
        while x < size.0
            invariant
                x <= size.0,
                x_array@.len() == x,
                forall|i: int| 0 <= i < x ==> (#[trigger] x_array@[i])@.len() == size.1,
                forall|i: int, j: int|
                    0 <= i < x && 0 <= j < size.1 ==> (#[trigger] x_array@[i]@[j])@.len() == 0,
            decreases size.0 - x,
        {
            let mut y_array: Vec<Vec<usize>> = Vec::new();
            let mut y: usize = 0;
            while y < size.1
                invariant
                    y <= size.1,
                    y_array@.len() == y,
                    forall|j: int| 0 <= j < y ==> (#[trigger] y_array@[j])@.len() == 0,
                decreases size.1 - y,
            {
                y_array.push(Vec::new());
                y = y + 1;
            }
            x_array.push(y_array);
            x = x + 1;
        }
        x_array
    }

    /// An empty grid of `size.0` columns of `size.1` cells.
    pub fn new(size: (usize, usize)) -> (grid: Grid)
        ensures
            grid.wf(),
            grid.size_spec() == size,
            grid@ == empty_cells(size),
    {
        let cells = Grid::init_grid_vec(size);
        let grid = Grid { columns: size.0, rows: size.1, cells };
        assert(grid@ =~= empty_cells(size)) by {
            assert forall|x: int| 0 <= x < size.0 implies #[trigger] grid@[x] =~= empty_cells(
                size,
            )[x] by {
                assert forall|y: int| 0 <= y < size.1 implies #[trigger] grid@[x][y]
                    =~= empty_cells(size)[x][y] by {
                    assert(grid@[x][y] == cells@[x]@[y]@);
                }
            }
        }
        grid
    }

    /// The number of columns and of cells per column.
    pub fn size(&self) -> (size: (usize, usize))
        ensures
            size == self.size_spec(),
    {
        (self.columns, self.rows)
    }

    /// Puts item `id` into cell `index`.
    pub fn insert(&mut self, index: (usize, usize), id: usize)
        requires
            old(self).wf(),
            index.0 < old(self).size_spec().0,
            index.1 < old(self).size_spec().1,
        ensures
            final(self).wf(),
            final(self).size_spec() == old(self).size_spec(),
            final(self)@ == old(self)@.update(
                index.0 as int,
                old(self)@[index.0 as int].update(
                    index.1 as int,
                    old(self)@[index.0 as int][index.1 as int].push(id),
                ),
            ),
    {
        let ghost before = self@;
        self.cells[index.0][index.1].push(id);
        let ghost after = before.update(
            index.0 as int,
            before[index.0 as int].update(index.1 as int, before[index.0 as int][index.1 as int].push(id)),
        );
        assert(self@ =~= after) by {
            assert forall|x: int| 0 <= x < self.columns implies #[trigger] self@[x] =~= after[x] by {
                if x == index.0 {
                    assert forall|y: int| 0 <= y < self.rows implies #[trigger] self@[x][y]
                        =~= after[x][y] by {
                        assert(self@[x][y] == self.cells@[x]@[y]@);
                    }
                }
            }
        }
    }

    /// A `size` grid holding the items of a list, item `i` in cell
    /// `cells_of[i]`, each cell listing its items in increasing order.
    pub fn from_vec(size: (usize, usize), cells_of: &Vec<(usize, usize)>) -> (grid: Grid)
        requires
            forall|i: int|
                0 <= i < cells_of@.len() ==> (#[trigger] cells_of@[i]).0 < size.0 && cells_of@[i].1
                    < size.1,
        ensures
            grid.wf(),
            grid.size_spec() == size,
            grid@ == placed(size, cells_of@, cells_of@.len()),
            forall|x: int, y: int, id: usize|
                0 <= x < size.0 && 0 <= y < size.1 ==> (#[trigger] grid@[x][y].contains(id) <==> (
                id < cells_of@.len() && cells_of@[id as int].0 == x && cells_of@[id as int].1 == y)),
            forall|x: int, y: int, i: int, j: int|
                0 <= x < size.0 && 0 <= y < size.1 && 0 <= i < j < grid@[x][y].len()
                    ==> #[trigger] grid@[x][y][i] < #[trigger] grid@[x][y][j],
    {
        let mut grid = Grid::new(size);
        proof {
            assert forall|x: int| 0 <= x < size.0 implies #[trigger] placed(size, cells_of@, 0)[x]
                =~= empty_cells(size)[x] by {
                assert forall|y: int| 0 <= y < size.1 implies #[trigger] placed(
                    size,
                    cells_of@,
                    0,
                )[x][y] =~= empty_cells(size)[x][y] by {}
            }
            assert(placed(size, cells_of@, 0) =~= empty_cells(size));
        }
        let mut i: usize = 0;
        while i < cells_of.len()
            invariant
                forall|k: int|
                    0 <= k < cells_of@.len() ==> (#[trigger] cells_of@[k]).0 < size.0
                        && cells_of@[k].1 < size.1,
                i <= cells_of@.len(),
                grid.wf(),
                grid.size_spec() == size,
                grid@ == placed(size, cells_of@, i as nat),
            decreases cells_of@.len() - i,
        {
            let index = cells_of[i];
            proof {
                lemma_placed_step(size, cells_of@, i as nat);
            }
            grid.insert(index, i);
            i = i + 1;
        }
        proof {
            let n = cells_of@.len();
            assert forall|x: int, y: int, id: usize| 0 <= x < size.0 && 0 <= y < size.1 implies (
            #[trigger] grid@[x][y].contains(id) <==> (id < n && cells_of@[id as int].0 == x
                && cells_of@[id as int].1 == y)) by {
                lemma_ids_at(cells_of@, n, x, y);
            }
            assert forall|x: int, y: int, i: int, j: int|
                0 <= x < size.0 && 0 <= y < size.1 && 0 <= i < j < grid@[x][y].len() implies #[trigger] grid@[x][y][i]
                < #[trigger] grid@[x][y][j] by {
                lemma_ids_at(cells_of@, n, x, y);
            }
        }
        grid
    }

    /// Appends the items of cell `(x, y)` to `out`.
    fn append_cell(&self, out: &mut Vec<usize>, x: usize, y: usize)
        requires
            self.wf(),
            x < self.size_spec().0,
            y < self.size_spec().1,
        ensures
            final(out)@ == old(out)@ + self@[x as int][y as int],
    {
        let cell = &self.cells[x][y];
        assert(self@[x as int][y as int] == cell@);
        let mut i: usize = 0;
        let ghost start = out@;
        while i < cell.len()
            invariant
                i <= cell@.len(),
                out@ == start + cell@.take(i as int),
            decreases cell@.len() - i,
        {
            out.push(cell[i]);
            assert(cell@.take(i + 1) =~= cell@.take(i as int).push(cell@[i as int]));
            i = i + 1;
        }
        assert(cell@.take(cell@.len() as int) =~= cell@);
    }

    /// Appends the items of the listed cells, one cell after the other.
    fn gather_cells(&self, list: &Vec<(usize, usize)>) -> (out: Vec<usize>)
        requires
            self.wf(),
            forall|i: int|
                0 <= i < list@.len() ==> (#[trigger] list@[i]).0 < self.size_spec().0 && list@[i].1
                    < self.size_spec().1,
        ensures
            out@ == gather(self@, list@),
    {
        let mut out: Vec<usize> = Vec::new();
        let mut i: usize = 0;
        while i < list.len()
            invariant
                self.wf(),
                forall|k: int|
                    0 <= k < list@.len() ==> (#[trigger] list@[k]).0 < self.size_spec().0
                        && list@[k].1 < self.size_spec().1,
                i <= list@.len(),
                out@ == gather(self@, list@.take(i as int)),
            decreases list@.len() - i,
        {
            let (x, y) = list[i];
            self.append_cell(&mut out, x, y);
            proof {
                let f = |c: (usize, usize)| self@[c.0 as int][c.1 as int];
                assert(list@.take(i + 1).map_values(f) =~= list@.take(i as int).map_values(f).push(
                    f(list@[i as int]),
                ));
                list@.take(i as int).map_values(f).lemma_flatten_push(f(list@[i as int]));
            }
            i = i + 1;
        }
        assert(list@.take(list@.len() as int) =~= list@);
        out
    }

    /// The numbers of the items that count as neighbours of an item in cell
    /// `index`: the items of the cells that `neighbor_cells` lists, in that
    /// order. `limit` is the last column and the last row whose next column
    /// or row is looked at.
    pub fn get_cell_neighbors(&self, index: (usize, usize), limit: (usize, usize)) -> (rtrn: Vec<
        usize,
    >)
        requires
            self.wf(),
            neighbors_in_range(index, limit, self.size_spec()),
        ensures
            rtrn@ == gather(self@, neighbor_cells(index, limit, self.size_spec())),
            forall|cx: int, cy: int, id: usize|
                index.0 - 1 <= cx <= index.0 + 1 && index.1 - 1 <= cy <= index.1 + 1 && (cx
                    == index.0 + 1 ==> index.0 < limit.0) && (cx == index.0 - 1 ==> index.0 > 1)
                    && (cy == index.1 + 1 ==> index.1 < limit.1) && (cy == index.1 - 1 ==> index.1
                    > 1) && #[trigger] self@[cx][cy].contains(id) ==> rtrn@.contains(id),
            forall|id: usize|
                #[trigger] rtrn@.contains(id) ==> exists|cx: int, cy: int|
                    0 <= cx < self.size_spec().0 && 0 <= cy < self.size_spec().1 && ((index.0 - 1
                        <= cx <= index.0 + 1 && index.1 - 1 <= cy <= index.1 + 1) || (cx
                        == self.size_spec().0 - 1 && cy == self.size_spec().1 - 1))
                        && #[trigger] self@[cx][cy].contains(id),
    {
        let rtrn = self.collect_neighbors(index, limit);
        proof {
            self.lemma_view_size();
            lemma_neighbors_complete(self@, index, limit, self.size_spec());
            lemma_neighbors_sound(self@, index, limit, self.size_spec());
        }
        rtrn
    }

    fn collect_neighbors(&self, index: (usize, usize), limit: (usize, usize)) -> (rtrn: Vec<usize>)
        requires
            self.wf(),
            neighbors_in_range(index, limit, self.size_spec()),
        ensures
            rtrn@ == gather(self@, neighbor_cells(index, limit, self.size_spec())),
    {
        let x = index.0;
        let y = index.1;
        let x_0 = x <= 1;
        let y_0 = y <= 1;
        let x_max = x >= limit.0;
        let y_max = y >= limit.1;
        let mut list: Vec<(usize, usize)> = if !x_0 {
            Self::side_list(x - 1, y, y_0, y_max)
        } else {
            Vec::new()
        };
        if !x_max {
            let mut right = Self::side_list(x + 1, y, y_0, y_max);
            list.append(&mut right);
        }
        let mut own = Self::own_column_list(x, y, y_0, y_max);
        list.append(&mut own);
        list.push((self.columns - 1, self.rows - 1));
        assert(list@ =~= neighbor_cells(index, limit, self.size_spec()));
        self.gather_cells(&list)
    }

    fn side_list(col: usize, y: usize, y_0: bool, y_max: bool) -> (list: Vec<(usize, usize)>)
        requires
            !y_0 ==> y >= 1,
            !y_max ==> y < usize::MAX,
        ensures
            list@ == side_cells(col, y, y_0, y_max),
    {
        let mut list: Vec<(usize, usize)> = Vec::new();
        list.push((col, y));
        if !y_0 {
            list.push((col, y - 1));
        }
        if !y_max {
            list.push((col, y + 1));
        }
        assert(list@ =~= side_cells(col, y, y_0, y_max));
        list
    }

    fn own_column_list(x: usize, y: usize, y_0: bool, y_max: bool) -> (list: Vec<(usize, usize)>)
        requires
            !y_0 ==> y >= 1,
            !y_max ==> y < usize::MAX,
        ensures
            list@ == own_column_cells(x, y, y_0, y_max),
    {
        let mut list: Vec<(usize, usize)> = Vec::new();
        if !y_max {
            list.push((x, y + 1));
        }
        if !y_0 {
            list.push((x, y - 1));
        }
        list.push((x, y));
        assert(list@ =~= own_column_cells(x, y, y_0, y_max));
        list
    }

    /// Every item of the grid, column after column, each column from its
    /// first cell to its last.
    pub fn iterate_flattened(&self) -> (items: Vec<usize>)
        requires
            self.wf(),
        ensures
            items@ == all_items(self@),
            items@.len() == total_len(self@),
            forall|id: usize|
                #[trigger] items@.contains(id) <==> exists|x: int, y: int|
                    0 <= x < self.size_spec().0 && 0 <= y < self.size_spec().1
                        && #[trigger] self@[x][y].contains(id),
    {
        let ghost columns = self@.map_values(|column: Seq<Seq<usize>>| column.flatten());
        let mut items: Vec<usize> = Vec::new();
        let mut x: usize = 0;
        while x < self.columns
            invariant
                self.wf(),
                x <= self.size_spec().0,
                columns == self@.map_values(|column: Seq<Seq<usize>>| column.flatten()),
                items@ == columns.take(x as int).flatten(),
            decreases self.size_spec().0 - x,
        {
            let ghost before = items@;
            let mut y: usize = 0;
            while y < self.rows
                invariant
                    self.wf(),
                    x < self.size_spec().0,
                    y <= self.size_spec().1,
                    items@ == before + self@[x as int].take(y as int).flatten(),
                decreases self.size_spec().1 - y,
            {
                self.append_cell(&mut items, x, y);
                proof {
                    let col = self@[x as int];
                    assert(col.take(y + 1) =~= col.take(y as int).push(col[y as int]));
                    col.take(y as int).lemma_flatten_push(col[y as int]);
                }
                y = y + 1;
            }
            proof {
                self.lemma_view_size();
                let col = self@[x as int];
                assert(col.take(col.len() as int) =~= col);
                assert(columns.take(x + 1) =~= columns.take(x as int).push(columns[x as int]));
                columns.take(x as int).lemma_flatten_push(columns[x as int]);
            }
            x = x + 1;
        }
        proof {
            self.lemma_view_size();
        }
        assert(columns.take(columns.len() as int) =~= columns);
        proof {
            lemma_all_items_len(self@);
            assert forall|id: usize| #[trigger] items@.contains(id) <==> exists|x: int, y: int|
                0 <= x < self.size_spec().0 && 0 <= y < self.size_spec().1
                    && #[trigger] self@[x][y].contains(id) by {
                lemma_all_items_contains(self@, id);
            }
        }
        items
    }
}

} // verus!
