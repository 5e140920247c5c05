//! The impact table: cells with the keys they sort by, the sorting state
//! that clicks on the column headers step through, and the rows in the
//! order that state asks for.

use vstd::prelude::*;

use crate::sorting::{
    index_seq, indices_up_to, is_stable_sort, keys_distinct, lemma_descending_reverses_ascending,
    lemma_index_order_selects, lemma_stable_sort_output, lemma_stable_sort_unique, stable_sort,
    KeyOrder,
};
use crate::text::{
    compare_chars, lemma_lex_compare_flip, lemma_lex_compare_transitive, lex_compare, lowercase,
    lowercase_chars, Comparison,
};

verus! {

/// What a cell sorts by. A number is an integer that stands for the
/// cell's value and is ordered as the value is.
#[derive(Clone, Debug)]
pub enum SortKey {
    Number(i64),
    Text(String),
}

/// A table cell: what it shows and what it sorts by.
#[derive(Clone, Debug)]
pub struct Cell {
    pub display: String,
    pub sort_key: SortKey,
}

impl Cell {
    /// A cell that shows `s` and sorts by it as text.
    pub fn text(s: String) -> (c: Cell)
        ensures
            c.display == s,
            c.sort_key == SortKey::Text(s),
    {
        Cell { sort_key: SortKey::Text(s.clone()), display: s }
    }

    /// A cell that shows `display` and sorts by the number `value`.
    pub fn number(display: String, value: i64) -> (c: Cell)
        ensures
            c.display == display,
            c.sort_key == SortKey::Number(value),
    {
        Cell { display, sort_key: SortKey::Number(value) }
    }
}

/// Numbers by value; texts by their lowercase forms, lexicographically;
/// every number before every text.
pub open spec fn key_comparison(a: SortKey, b: SortKey) -> Comparison {
    match (a, b) {
        (SortKey::Number(x), SortKey::Number(y)) => if x < y {
            Comparison::Less
        } else if x > y {
            Comparison::Greater
        } else {
            Comparison::Equal
        },
        (SortKey::Text(x), SortKey::Text(y)) => lex_compare(lowercase(x@), lowercase(y@)),
        (SortKey::Number(_), SortKey::Text(_)) => Comparison::Less,
        (SortKey::Text(_), SortKey::Number(_)) => Comparison::Greater,
    }
}

/// Compares two sort keys.
pub fn compare_keys(a: &SortKey, b: &SortKey) -> (r: Comparison)
    ensures
        r == key_comparison(*a, *b),
        forall|x: i64, y: i64|
            *a == SortKey::Number(x) && *b == SortKey::Number(y) ==> ((r == Comparison::Less) == (x
                < y) && (r == Comparison::Greater) == (x > y) && (r == Comparison::Equal) == (x
                == y)),
{
    match (a, b) {
        (SortKey::Number(x), SortKey::Number(y)) => {
            if *x < *y {
                Comparison::Less
            } else if *x > *y {
                Comparison::Greater
            } else {
                Comparison::Equal
            }
        },
        (SortKey::Text(x), SortKey::Text(y)) => {
            let lx = lowercase_chars(x.as_str());
            let ly = lowercase_chars(y.as_str());
            compare_chars(&lx, &ly)
        },
        (SortKey::Number(_), SortKey::Text(_)) => Comparison::Less,
        (SortKey::Text(_), SortKey::Number(_)) => Comparison::Greater,
    }
}

/// Number keys compare by their whole value: `Less` exactly when the first
/// is smaller, `Greater` exactly when it is larger, `Equal` exactly when the
/// two are the same integer.
pub proof fn lemma_number_keys_compare_by_value(x: i64, y: i64)
    ensures
        (key_comparison(SortKey::Number(x), SortKey::Number(y)) == Comparison::Less) == (x < y),
        (key_comparison(SortKey::Number(x), SortKey::Number(y)) == Comparison::Greater) == (x > y),
        (key_comparison(SortKey::Number(x), SortKey::Number(y)) == Comparison::Equal) == (x == y),
{
}

/// Text keys ignore case: two texts whose lowercase forms are the same
/// compare equal, and otherwise they compare as their lowercase forms do.
pub proof fn lemma_text_keys_ignore_case(x: String, y: String)
    ensures
        lowercase(x@) == lowercase(y@) ==> key_comparison(SortKey::Text(x), SortKey::Text(y))
            == Comparison::Equal,
        lowercase(x@) != lowercase(y@) ==> key_comparison(SortKey::Text(x), SortKey::Text(y))
            != Comparison::Equal,
        key_comparison(SortKey::Text(x), SortKey::Text(y)) == lex_compare(lowercase(x@), lowercase(y@)),
{
    lemma_lex_compare_flip(lowercase(x@), lowercase(y@));
}

/// Every number key comes before every text key.
pub proof fn lemma_numbers_before_texts(x: i64, t: String)
    ensures
        key_comparison(SortKey::Number(x), SortKey::Text(t)) == Comparison::Less,
        key_comparison(SortKey::Text(t), SortKey::Number(x)) == Comparison::Greater,
{
}

impl KeyOrder for SortKey {
    open spec fn le_spec(self, other: Self) -> bool {
        key_comparison(self, other) != Comparison::Greater
    }

    proof fn le_reflexive(a: Self) {
        if let SortKey::Text(x) = a {
            lemma_lex_compare_flip(lowercase(x@), lowercase(x@));
        }
    }

    proof fn le_transitive(a: Self, b: Self, c: Self) {
        match (a, b, c) {
            (SortKey::Text(x), SortKey::Text(y), SortKey::Text(z)) => {
                lemma_lex_compare_transitive(lowercase(x@), lowercase(y@), lowercase(z@));
            },
            _ => {},
        }
    }

    proof fn le_total(a: Self, b: Self) {
        if let (SortKey::Text(x), SortKey::Text(y)) = (a, b) {
            lemma_lex_compare_flip(lowercase(x@), lowercase(y@));
        }
    }

    fn le(&self, other: &Self) -> (r: bool) {
        compare_keys(self, other) != Comparison::Greater
    }
}

/// The direction in which a column is sorted.
#[derive(Clone, Copy, Debug, PartialEq, Eq, Structural)]
pub enum SortDir {
    Asc,
    Desc,
}

/// The sorting state after a click on the header of column `clicked`: a
/// second click on the column sorted ascending sorts it descending, any
/// other click sorts the clicked column ascending.
pub open spec fn after_click(state: Option<(usize, SortDir)>, clicked: usize) -> Option<(usize, SortDir)> {
    match state {
        Some((c, SortDir::Asc)) if c == clicked => Some((clicked, SortDir::Desc)),
        _ => Some((clicked, SortDir::Asc)),
    }
}

/// Steps the sorting state on a click on the header of column `clicked`.
pub fn next_sort_state(state: Option<(usize, SortDir)>, clicked: usize) -> (r: Option<(usize, SortDir)>)
    ensures
        r == after_click(state, clicked),
        state == Some((clicked, SortDir::Asc)) ==> r == Some((clicked, SortDir::Desc)),
        state != Some((clicked, SortDir::Asc)) ==> r == Some((clicked, SortDir::Asc)),
{
    match state {
        Some((c, SortDir::Asc)) if c == clicked => Some((clicked, SortDir::Desc)),
        _ => Some((clicked, SortDir::Asc)),
    }
}

/// A click sorts the clicked column: descending when it was the column
/// sorted ascending, ascending in every other case (no column sorted,
/// another column sorted either way, or this column sorted descending).
pub proof fn lemma_click_sorts_clicked_column(state: Option<(usize, SortDir)>, clicked: usize)
    ensures
        state == Some((clicked, SortDir::Asc)) ==> after_click(state, clicked) == Some(
            (clicked, SortDir::Desc),
        ),
        state == Some((clicked, SortDir::Desc)) ==> after_click(state, clicked) == Some(
            (clicked, SortDir::Asc),
        ),
        state is None ==> after_click(state, clicked) == Some((clicked, SortDir::Asc)),
        state matches Some((c, _)) ==> (c != clicked ==> after_click(state, clicked) == Some(
            (clicked, SortDir::Asc),
        )),
{
}

/// Clicking one header twice in a row sorts its column one way and then
/// the other, so that a third click has the effect of the first.
pub proof fn lemma_clicks_alternate(state: Option<(usize, SortDir)>, clicked: usize)
    ensures
        after_click(state, clicked) == Some((clicked, SortDir::Asc)) || after_click(state, clicked)
            == Some((clicked, SortDir::Desc)),
        after_click(state, clicked) == Some((clicked, SortDir::Asc)) ==> after_click(
            after_click(state, clicked),
            clicked,
        ) == Some((clicked, SortDir::Desc)),
        after_click(state, clicked) == Some((clicked, SortDir::Desc)) ==> after_click(
            after_click(state, clicked),
            clicked,
        ) == Some((clicked, SortDir::Asc)),
        after_click(after_click(after_click(state, clicked), clicked), clicked) == after_click(
            state,
            clicked,
        ),
{
}

/// The mark that the header of column `col` shows.
pub open spec fn indicator_text(state: Option<(usize, SortDir)>, col: usize) -> Seq<char> {
    match state {
        Some((c, SortDir::Asc)) if c == col => " ▲"@,
        Some((c, SortDir::Desc)) if c == col => " ▼"@,
        _ => " ↕"@,
    }
}

/// The mark that the header of column `col` shows: up for the column sorted
/// ascending, down for the column sorted descending, both ways otherwise.
pub fn sort_indicator(state: Option<(usize, SortDir)>, col: usize) -> (r: &'static str)
    ensures
        r@ == indicator_text(state, col),
{
    match state {
        Some((c, SortDir::Asc)) if c == col => " ▲",
        Some((c, SortDir::Desc)) if c == col => " ▼",
        _ => " ↕",
    }
}

/// The keys of column `col`.
pub open spec fn column_keys(rows: Seq<Vec<Cell>>, col: int) -> Seq<SortKey> {
    rows.map_values(|row: Vec<Cell>| row@[col].sort_key)
}

/// Every row has a cell in column `col`.
pub open spec fn rows_reach(rows: Seq<Vec<Cell>>, col: int) -> bool {
    forall|i: int| 0 <= i < rows.len() ==> col < #[trigger] rows[i]@.len()
}

fn copy_key(k: &SortKey) -> (r: SortKey)
    ensures
        r == *k,
{
    match k {
        SortKey::Number(x) => SortKey::Number(*x),
        SortKey::Text(s) => SortKey::Text(s.clone()),
    }
}

/// The rows in the order the sorting state asks for: unchanged when no
/// column is sorted, else sorted stably by the keys of the sorted column,
/// ascending or descending. Rows whose keys compare equal keep their order.
pub fn sort_rows(rows: Vec<Vec<Cell>>, state: Option<(usize, SortDir)>) -> (r: Vec<Vec<Cell>>)
    requires
        match state {
            Some((col, _)) => rows@.len() >= 2 ==> rows_reach(rows@, col as int),
            None => true,
        },
    ensures
        match state {
            Some((col, dir)) => if rows@.len() >= 2 {
                is_stable_sort(rows@, column_keys(rows@, col as int), r@, dir == SortDir::Desc)
            } else {
                r@ == rows@
            },
            None => r@ == rows@,
        },
{
    match state {
        None => rows,
        Some((col, dir)) => {
            if rows.len() < 2 {
                return rows;
            }
            let mut keys: Vec<SortKey> = Vec::new();
            let mut i: usize = 0;
            while i < rows.len()
                invariant
                    i <= rows@.len(),
                    rows_reach(rows@, col as int),
                    keys@ == column_keys(rows@, col as int).take(i as int),
                decreases rows@.len() - i,
            {
                assert(col < rows@[i as int]@.len());
                let key = copy_key(&rows[i][col].sort_key);
                keys.push(key);
                assert(column_keys(rows@, col as int).take(i + 1) =~= column_keys(
                    rows@,
                    col as int,
                ).take(i as int).push(rows@[i as int]@[col as int].sort_key));
                i = i + 1;
            }
            assert(column_keys(rows@, col as int).take(i as int) =~= column_keys(rows@, col as int));
            let descending = match dir {
                SortDir::Desc => true,
                SortDir::Asc => false,
            };
            stable_sort(rows, keys, descending)
        },
    }
}

/// Sorted rows hold exactly the rows that were sorted, and their cells in
/// the sorted column come in order: ascending, no key after one that
/// compares greater; descending, no key after one that compares less.
pub proof fn lemma_sorted_rows_in_column_order(
    rows: Seq<Vec<Cell>>,
    col: int,
    dir: SortDir,
    sorted: Seq<Vec<Cell>>,
)
    requires
        is_stable_sort(rows, column_keys(rows, col), sorted, dir == SortDir::Desc),
    ensures
        sorted.len() == rows.len(),
        forall|i: int, j: int|
            0 <= i < j < sorted.len() ==> key_comparison(
                (#[trigger] sorted[i])@[col].sort_key,
                (#[trigger] sorted[j])@[col].sort_key,
            ) != (if dir == SortDir::Asc {
                Comparison::Greater
            } else {
                Comparison::Less
            }),
        forall|i: int| 0 <= i < sorted.len() ==> rows.contains(#[trigger] sorted[i]),
        forall|i: int| 0 <= i < rows.len() ==> sorted.contains(#[trigger] rows[i]),
        forall|i: int, j: int|
            0 <= i < j < sorted.len() ==> ((#[trigger] sorted[i])@[col].sort_key matches SortKey::Number(
                x,
            ) ==> ((#[trigger] sorted[j])@[col].sort_key matches SortKey::Number(y) ==> if dir
                == SortDir::Asc {
                x <= y
            } else {
                x >= y
            })),
{
    let key_of = |row: Vec<Cell>| row@[col].sort_key;
    assert(column_keys(rows, col) =~= rows.map_values(key_of));
    lemma_stable_sort_output(rows, column_keys(rows, col), sorted, dir == SortDir::Desc, key_of);
    assert forall|i: int, j: int|
        0 <= i < j < sorted.len() implies key_comparison(
        (#[trigger] sorted[i])@[col].sort_key,
        (#[trigger] sorted[j])@[col].sort_key,
    ) != (if dir == SortDir::Asc {
        Comparison::Greater
    } else {
        Comparison::Less
    }) by {
        let a = sorted[i]@[col].sort_key;
        let b = sorted[j]@[col].sort_key;
        assert(a == key_of(sorted[i]));
        assert(b == key_of(sorted[j]));
        if dir == SortDir::Desc {
            assert(b.le_spec(a));
            if let (SortKey::Text(x), SortKey::Text(y)) = (a, b) {
                lemma_lex_compare_flip(lowercase(x@), lowercase(y@));
            }
        }
    }
}

/// When no two cells of the sorted column compare equal, sorting the
/// column descending shows the rows of the ascending sort in reverse.
pub proof fn lemma_descending_rows_reverse_ascending(
    rows: Seq<Vec<Cell>>,
    col: int,
    ascending: Seq<Vec<Cell>>,
    descending: Seq<Vec<Cell>>,
)
    requires
        is_stable_sort(rows, column_keys(rows, col), ascending, false),
        is_stable_sort(rows, column_keys(rows, col), descending, true),
        forall|i: int, j: int|
            0 <= i < j < rows.len() ==> key_comparison(
                (#[trigger] rows[i])@[col].sort_key,
                (#[trigger] rows[j])@[col].sort_key,
            ) != Comparison::Equal,
    ensures
        descending == ascending.reverse(),
{
    let keys = column_keys(rows, col);
    assert forall|i: int, j: int| 0 <= i < j < keys.len() implies !(#[trigger] keys[i].le_spec(
        keys[j],
    ) && #[trigger] keys[j].le_spec(keys[i])) by {
        assert(keys[i] == rows[i]@[col].sort_key);
        assert(keys[j] == rows[j]@[col].sort_key);
        if let (SortKey::Text(x), SortKey::Text(y)) = (keys[i], keys[j]) {
            lemma_lex_compare_flip(lowercase(x@), lowercase(y@));
        }
    }
    assert(keys_distinct(keys));
    lemma_descending_reverses_ascending(rows, keys, ascending, descending);
}

/// The sorting state after the header clicks `clicks`, in order, starting
/// from `state`.
pub open spec fn state_after_clicks(
    state: Option<(usize, SortDir)>,
    clicks: Seq<usize>,
) -> Option<(usize, SortDir)>
    decreases clicks.len(),
{
    if clicks.len() == 0 {
        state
    } else {
        state_after_clicks(after_click(state, clicks[0]), clicks.drop_first())
    }
}

/// One more click steps the state reached by the earlier ones; after at
/// least one click, the sorted column is the last one clicked.
pub proof fn lemma_state_after_one_more_click(
    state: Option<(usize, SortDir)>,
    clicks: Seq<usize>,
    clicked: usize,
)
    ensures
        state_after_clicks(state, clicks.push(clicked)) == after_click(
            state_after_clicks(state, clicks),
            clicked,
        ),
        state_after_clicks(state, clicks.push(clicked)) matches Some((c, _)) && c == clicked,
    decreases clicks.len(),
{
    let longer = clicks.push(clicked);
    if clicks.len() > 0 {
        assert(longer.drop_first() =~= clicks.drop_first().push(clicked));
        assert(longer[0] == clicks[0]);
        lemma_state_after_one_more_click(after_click(state, clicks[0]), clicks.drop_first(), clicked);
        assert(state_after_clicks(state, longer) == state_after_clicks(
            after_click(state, clicks[0]),
            clicks.drop_first().push(clicked),
        ));
    } else {
        assert(longer.drop_first() =~= Seq::<usize>::empty());
        assert(longer[0] == clicked);
        assert(state_after_clicks(state, longer) == state_after_clicks(
            after_click(state, clicked),
            Seq::<usize>::empty(),
        ));
    }
}

/// The rows at the indices of `order`.
pub open spec fn shown_rows(rows: Seq<Vec<Cell>>, order: Seq<usize>) -> Seq<Vec<Cell>> {
    order.map_values(|i: usize| rows[i as int])
}

/// `order` is the order in which the table shows `rows` under the sorting
/// state `sort`: the given order when no column is sorted (or there are
/// fewer than two rows), else the stable sort by the keys of the sorted
/// column, ascending or descending.
pub open spec fn is_display_order(
    rows: Seq<Vec<Cell>>,
    sort: Option<(usize, SortDir)>,
    order: Seq<usize>,
) -> bool {
    match sort {
        Some((col, dir)) => if rows.len() >= 2 {
            is_stable_sort(
                index_seq(rows.len()),
                column_keys(rows, col as int),
                order,
                dir == SortDir::Desc,
            )
        } else {
            order == index_seq(rows.len())
        },
        None => order == index_seq(rows.len()),
    }
}

/// Whatever clicks led to a sorting state, the table shows the rows it was
/// given in one order only: the stable sort of those rows by the sorted
/// column in the sorted direction. Earlier sorts leave no trace, not even
/// as a secondary order.
pub proof fn lemma_display_after_clicks(
    rows: Seq<Vec<Cell>>,
    first_clicks: Seq<usize>,
    second_clicks: Seq<usize>,
    first_order: Seq<usize>,
    second_order: Seq<usize>,
)
    requires
        rows.len() <= usize::MAX,
        is_display_order(rows, state_after_clicks(None, first_clicks), first_order),
        is_display_order(rows, state_after_clicks(None, second_clicks), second_order),
        state_after_clicks(None, first_clicks) == state_after_clicks(None, second_clicks),
    ensures
        first_order == second_order,
        match state_after_clicks(None, first_clicks) {
            Some((col, dir)) => rows.len() >= 2 ==> is_stable_sort(
                rows,
                column_keys(rows, col as int),
                shown_rows(rows, first_order),
                dir == SortDir::Desc,
            ),
            None => shown_rows(rows, first_order) == rows,
        },
{
    match state_after_clicks(None, first_clicks) {
        Some((col, dir)) => {
            if rows.len() >= 2 {
                let keys = column_keys(rows, col as int);
                lemma_stable_sort_unique(
                    index_seq(rows.len()),
                    keys,
                    first_order,
                    second_order,
                    dir == SortDir::Desc,
                );
                lemma_index_order_selects(rows, keys, first_order, dir == SortDir::Desc);
            }
        },
        None => {
            assert forall|i: int| 0 <= i < rows.len() implies #[trigger] shown_rows(
                rows,
                first_order,
            )[i] == rows[i] by {
                assert(first_order[i] as int == i);
            }
            assert(shown_rows(rows, first_order) =~= rows);
        },
    }
}

/// The impact table's state: the rows it was given, which it keeps as they
/// are, and the sorting state that the header clicks have left.
pub struct ImpactTableState {
    rows: Vec<Vec<Cell>>,
    sort: Option<(usize, SortDir)>,
}

impl ImpactTableState {
    /// The rows the table was given.
    pub closed spec fn rows_view(&self) -> Seq<Vec<Cell>> {
        self.rows@
    }

    /// The sorting state.
    pub closed spec fn sort_view(&self) -> Option<(usize, SortDir)> {
        self.sort
    }

    /// A table of `rows`, with no column sorted.
    pub fn new(rows: Vec<Vec<Cell>>) -> (r: ImpactTableState)
        ensures
            r.rows_view() == rows@,
            r.sort_view() == None::<(usize, SortDir)>,
    {
        ImpactTableState { rows, sort: None }
    }

    /// A click on the header of column `clicked`; the rows stay as given.
    pub fn click(&mut self, clicked: usize)
        ensures
            final(self).rows_view() == old(self).rows_view(),
            final(self).sort_view() == after_click(old(self).sort_view(), clicked),
    {
        self.sort = next_sort_state(self.sort, clicked);
    }

    /// The sorting state.
    pub fn sort_state(&self) -> (r: Option<(usize, SortDir)>)
        ensures
            r == self.sort_view(),
    {
        self.sort
    }

    /// The rows the table was given.
    pub fn rows(&self) -> (r: &Vec<Vec<Cell>>)
        ensures
            r@ == self.rows_view(),
    {
        &self.rows
    }

    /// The indices of the rows in the order the table shows them.
    pub fn display_order(&self) -> (r: Vec<usize>)
        requires
            match self.sort_view() {
                Some((col, _)) => self.rows_view().len() >= 2 ==> rows_reach(
                    self.rows_view(),
                    col as int,
                ),
                None => true,
            },
        ensures
            is_display_order(self.rows_view(), self.sort_view(), r@),
    {
        let n = self.rows.len();
        let indices = indices_up_to(n);
        match self.sort {
            None => indices,
            Some((col, dir)) => {
                if n < 2 {
                    return indices;
                }
                let mut keys: Vec<SortKey> = Vec::new();
                let mut i: usize = 0;
                while i < n
                    invariant
                        i <= n,
                        n == self.rows@.len(),
                        rows_reach(self.rows@, col as int),
                        keys@ == column_keys(self.rows@, col as int).take(i as int),
                    decreases n - i,
                {
                    assert(col < self.rows@[i as int]@.len());
                    let key = copy_key(&self.rows[i][col].sort_key);
                    keys.push(key);
                    assert(column_keys(self.rows@, col as int).take(i + 1) =~= column_keys(
                        self.rows@,
                        col as int,
                    ).take(i as int).push(self.rows@[i as int]@[col as int].sort_key));
                    i = i + 1;
                }
                assert(column_keys(self.rows@, col as int).take(i as int) =~= column_keys(
                    self.rows@,
                    col as int,
                ));
                let descending = match dir {
                    SortDir::Desc => true,
                    SortDir::Asc => false,
                };
                stable_sort(indices, keys, descending)
            },
        }
    }
}

} // verus!
