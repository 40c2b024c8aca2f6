//! Files that are rewritten from version to version.
use vstd::prelude::*;

use crate::eval::draws::{
    draw_between, draw_place, draw_small, number_drawn, Generator, Stream,
};
use crate::number::{decimal, decimal_text, digit};

verus! {

/// The number that decimal digits denote, if that is what `s` holds.
pub open spec fn number_of(s: Seq<char>) -> Option<nat>
    decreases s.len(),
{
    if s.len() == 0 {
        None
    } else if !is_digit(s.last()) {
        None
    } else if s.len() == 1 {
        Some(digit_value(s.last()))
    } else {
        match number_of(s.drop_last()) {
            Some(v) => Some(v * 10 + digit_value(s.last())),
            None => None,
        }
    }
}

pub open spec fn is_digit(c: char) -> bool {
    '0' <= c <= '9'
}

pub open spec fn digit_value(c: char) -> nat {
    (c as int - '0' as int) as nat
}

/// The number in `s`, a plus sign before it or none, where 64 bits hold it.
pub open spec fn parsed(s: Seq<char>) -> Option<nat> {
    let digits = if s.len() > 1 && s[0] == '+' {
        s.subrange(1, s.len() as int)
    } else {
        s
    };
    match number_of(digits) {
        Some(v) => if v <= u64::MAX {
            Some(v)
        } else {
            None
        },
        None => None,
    }
}

/// Where the first comma at `from` or behind it stands, or where `s` ends.
pub open spec fn comma_from(s: Seq<char>, from: int) -> int
    decreases s.len() - from,
{
    if from >= s.len() || s[from] == ',' {
        from
    } else {
        comma_from(s, from + 1)
    }
}

/// What stands before the first comma.
pub open spec fn first_field(s: Seq<char>) -> Seq<char> {
    s.subrange(0, comma_from(s, 0))
}

/// The id that a row starts with, or 0.
pub open spec fn id_of(row: Seq<char>) -> nat {
    match parsed(first_field(row)) {
        Some(v) => v,
        None => 0,
    }
}

/// What is drawn for a row.
pub struct Draw {
    pub amount: u32,
    /// A fraction in decimals.
    pub score: String,
    pub flag: bool,
}

pub open spec fn flag_of(flag: bool) -> Seq<char> {
    if flag {
        "true"@
    } else {
        "false"@
    }
}

/// A row of a table.
pub open spec fn csv_row_of(id: nat, amount: nat, score: Seq<char>, flag: bool) -> Seq<char> {
    decimal(id) + ","@ + decimal(amount) + ","@ + score + ","@ + flag_of(flag) + ",class_"@
        + decimal(id % 23) + "\n"@
}

/// A row of a table.
pub fn csv_row(id: u64, draw: &Draw) -> (r: String)
    ensures
        r@ == csv_row_of(id as nat, draw.amount as nat, draw.score@, draw.flag),
{
    let mut s = decimal_text(id);
    s.append(",");
    s.append(decimal_text(draw.amount as u64).as_str());
    s.append(",");
    s.append(draw.score.as_str());
    s.append(",");
    if draw.flag {
        s.append("true");
    } else {
        s.append("false");
    }
    s.append(",class_");
    s.append(decimal_text(id % 23).as_str());
    s.append("\n");
    s
}

proof fn lemma_digit(d: nat)
    requires
        d < 10,
    ensures
        digit(d).len() == 1,
        is_digit(digit(d)[0]),
        digit_value(digit(d)[0]) == d,
{
    reveal_strlit("0");
    reveal_strlit("1");
    reveal_strlit("2");
    reveal_strlit("3");
    reveal_strlit("4");
    reveal_strlit("5");
    reveal_strlit("6");
    reveal_strlit("7");
    reveal_strlit("8");
    reveal_strlit("9");
}

proof fn lemma_decimal_is_read(v: nat)
    ensures
        decimal(v).len() > 0,
        number_of(decimal(v)) == Some(v),
        forall|i: int| 0 <= i < decimal(v).len() ==> is_digit(#[trigger] decimal(v)[i]),
    decreases v,
{
    if v < 10 {
        lemma_digit(v);
    } else {
        lemma_decimal_is_read(v / 10);
        lemma_digit(v % 10);
        assert(decimal(v).drop_last() =~= decimal(v / 10));
        assert(decimal(v).last() == digit(v % 10)[0]);
    }
}

proof fn lemma_comma(s: Seq<char>, from: int, at: int)
    requires
        0 <= from <= at < s.len(),
        s[at] == ',',
        forall|i: int| from <= i < at ==> #[trigger] s[i] != ',',
    ensures
        comma_from(s, from) == at,
    decreases at - from,
{
    if from < at {
        lemma_comma(s, from + 1, at);
    }
}

/// The id that a row was written with is read back from it.
pub proof fn law_row_keeps_its_id(id: u64, amount: nat, score: Seq<char>, flag: bool)
    ensures
        id_of(csv_row_of(id as nat, amount, score, flag)) == id,
{
    let row = csv_row_of(id as nat, amount, score, flag);
    let d = decimal(id as nat);
    lemma_decimal_is_read(id as nat);
    reveal_strlit(",");
    assert(row.subrange(0, d.len() as int) =~= d);
    assert(row[d.len() as int] == ',');
    assert forall|i: int| 0 <= i < d.len() implies #[trigger] row[i] != ',' by {
        assert(is_digit(d[i]));
    }
    lemma_comma(row, 0, d.len() as int);
    assert(is_digit(d[0]));
}

/// The number in the characters of `s` up to `to`, a plus sign before it or none.
fn parse_upto(s: &str, to: usize) -> (r: Option<u64>)
    requires
        to <= s@.len(),
    ensures
        r matches Some(v) ==> parsed(s@.subrange(0, to as int)) == Some(v as nat),
        r is None ==> parsed(s@.subrange(0, to as int)) is None,
{
    let ghost field = s@.subrange(0, to as int);
    let skip: usize = if to > 1 && s.get_char(0) == '+' {
        1
    } else {
        0
    };
    let ghost digits = field.subrange(skip as int, to as int);
    assert(skip == 0 ==> digits =~= field);
    if to == 0 {
        return None;
    }
    let mut v: u64 = 0;
    let mut i: usize = skip;
    while i < to
        invariant
            skip <= i <= to <= s@.len(),
            skip < to,
            digits == s@.subrange(skip as int, to as int),
            digits == (if field.len() > 1 && field[0] == '+' {
                field.subrange(1, field.len() as int)
            } else {
                field
            }),
            field == s@.subrange(0, to as int),
            i == skip ==> v == 0,
            i > skip ==> number_of(digits.subrange(0, i - skip)) == Some(v as nat),
        decreases to - i,
    {
        let c = s.get_char(i);
        let ghost k = i - skip;
        let ghost next = digits.subrange(0, k + 1);
        proof {
            assert(next.last() == c);
            assert(next.drop_last() =~= digits.subrange(0, k));
        }
        if !('0' <= c && c <= '9') {
            proof {
                lemma_not_a_number(digits, k + 1);
            }
            return None;
        }
        let d: u64 = (c as u32 - '0' as u32) as u64;
        if v > (u64::MAX - d) / 10 {
            proof {
                assert(number_of(next) == Some(v as nat * 10 + d as nat));
                lemma_number_grows(digits, k + 1);
            }
            return None;
        }
        v = v * 10 + d;
        i = i + 1;
    }
    assert(digits.subrange(0, to - skip) =~= digits);
    Some(v)
}

/// Digits that are none stay none.
proof fn lemma_not_a_number(s: Seq<char>, n: int)
    requires
        0 < n <= s.len(),
        number_of(s.subrange(0, n)) is None,
    ensures
        number_of(s) is None,
    decreases s.len() - n,
{
    if n < s.len() {
        let next = s.subrange(0, n + 1);
        assert(next.drop_last() =~= s.subrange(0, n));
        lemma_not_a_number(s, n + 1);
    } else {
        assert(s.subrange(0, n) =~= s);
    }
}

/// A number with digits behind it is no smaller, if it is a number still.
proof fn lemma_number_grows(s: Seq<char>, n: int)
    requires
        0 < n <= s.len(),
        number_of(s.subrange(0, n)) is Some,
    ensures
        number_of(s) matches Some(v) ==> v >= number_of(s.subrange(0, n))->Some_0,
    decreases s.len() - n,
{
    if n < s.len() {
        let next = s.subrange(0, n + 1);
        assert(next.drop_last() =~= s.subrange(0, n));
        if number_of(next) is Some {
            lemma_number_grows(s, n + 1);
        } else {
            lemma_not_a_number(s, n + 1);
        }
    } else {
        assert(s.subrange(0, n) =~= s);
    }
}

/// The id that a row starts with, or 0.
pub fn row_id(row: &str) -> (r: u64)
    ensures
        r == id_of(row@),
{
    let n: usize = row.unicode_len();
    let mut at: usize = 0;
    while at < n && row.get_char(at) != ','
        invariant
            at <= n == row@.len(),
            comma_from(row@, 0) == comma_from(row@, at as int),
        decreases n - at,
    {
        at = at + 1;
    }
    match parse_upto(row, at) {
        Some(v) => v,
        None => 0,
    }
}

/// The rows one behind the other.
pub open spec fn rows_text(rows: Seq<Seq<char>>) -> Seq<char>
    decreases rows.len(),
{
    if rows.len() == 0 {
        Seq::empty()
    } else {
        rows_text(rows.drop_last()) + rows.last()
    }
}

/// The row with a number that holds what was drawn.
pub open spec fn row_of(id: nat, draw: Draw) -> Seq<char> {
    csv_row_of(id, draw.amount as nat, draw.score@, draw.flag)
}

/// A table whose rows are numbered from 0 on.
pub struct Table {
    pub rows: Vec<String>,
}

impl View for Table {
    type V = Seq<Seq<char>>;

    open spec fn view(&self) -> Seq<Seq<char>> {
        Seq::new(self.rows@.len(), |i: int| self.rows@[i]@)
    }
}

impl Table {
    /// Each row starts with its number.
    pub open spec fn well_formed(self) -> bool {
        forall|i: int| 0 <= i < self@.len() ==> id_of(#[trigger] self@[i]) == i
    }

    pub fn new() -> (r: Table)
        ensures
            r.well_formed(),
            r@ == Seq::<Seq<char>>::empty(),
    {
        let r = Table { rows: Vec::new() };
        assert(r@ =~= Seq::<Seq<char>>::empty());
        r
    }

    /// Adds a row under the next number.
    pub fn append(&mut self, draw: &Draw)
        requires
            old(self).well_formed(),
        ensures
            final(self).well_formed(),
            final(self)@ == old(self)@.push(row_of(old(self)@.len(), *draw)),
    {
        let id: u64 = self.rows.len() as u64;
        proof {
            law_row_keeps_its_id(id, draw.amount as nat, draw.score@, draw.flag);
        }
        self.rows.push(csv_row(id, draw));
        assert(self@ =~= old(self)@.push(row_of(old(self)@.len(), *draw)));
    }

    /// Draws a row anew, under the number that it has.
    pub fn edit(&mut self, at: usize, draw: &Draw)
        requires
            old(self).well_formed(),
            at < old(self)@.len(),
        ensures
            final(self).well_formed(),
            final(self)@ == old(self)@.update(at as int, row_of(at as nat, *draw)),
    {
        assert(self@[at as int] == self.rows@[at as int]@);
        let id = row_id(self.rows[at].as_str());
        assert(id == at);
        proof {
            law_row_keeps_its_id(id, draw.amount as nat, draw.score@, draw.flag);
        }
        let row = csv_row(id, draw);
        self.rows.set(at, row);
        assert(self@ =~= old(self)@.update(at as int, row_of(at as nat, *draw)));
    }

    /// The file.
    pub fn text(&self) -> (r: String)
        ensures
            r@ == rows_text(self@),
    {
        let mut s = String::from_str("");
        let mut i: usize = 0;
        proof {
            reveal_strlit("");
            assert(s@ =~= rows_text(self@.subrange(0, 0)));
        }
        while i < self.rows.len()
            invariant
                i <= self.rows@.len(),
                s@ == rows_text(self@.subrange(0, i as int)),
            decreases self.rows@.len() - i,
        {
            s.append(self.rows[i].as_str());
            proof {
                let next = self@.subrange(0, i + 1);
                assert(next.drop_last() =~= self@.subrange(0, i as int));
                assert(next.last() == self.rows@[i as int]@);
            }
            i = i + 1;
        }
        assert(self@.subrange(0, i as int) =~= self@);
        s
    }
}

/// How many rows there are after `n` revisions, each of which grows a table by a percentage
/// of its rows, rounded down.
pub open spec fn rows_at(rows: nat, grow_pct: nat, n: nat) -> nat
    decreases n,
{
    if n == 0 {
        rows
    } else {
        let before = rows_at(rows, grow_pct, (n - 1) as nat);
        before + before * grow_pct / 100
    }
}

/// Revision `n` can be counted: the rows that it appends and those that it edits.
pub open spec fn revision_fits(rows: nat, grow_pct: nat, edit_pct: nat, n: nat) -> bool {
    let before = rows_at(rows, grow_pct, n);
    let after = rows_at(rows, grow_pct, n + 1);
    before * grow_pct <= usize::MAX && after <= usize::MAX && after * edit_pct <= usize::MAX
}

/// Revision `n` appends and edits so many rows.
pub open spec fn is_size(
    size: (usize, usize),
    rows: nat,
    grow_pct: nat,
    edit_pct: nat,
    n: nat,
) -> bool {
    &&& revision_fits(rows, grow_pct, edit_pct, n)
    &&& size.0 == rows_at(rows, grow_pct, n) * grow_pct / 100
    &&& size.1 == rows_at(rows, grow_pct, n + 1) * edit_pct / 100
}

/// How many rows each revision of a table of `rows` rows appends, and how many of them all
/// it edits. `None` where they are too many to count.
pub fn revision_sizes(rows: usize, revisions: usize, grow_pct: usize, edit_pct: usize) -> (r:
    Option<Vec<(usize, usize)>>)
    ensures
        match r {
            Some(sizes) => {
                &&& sizes@.len() == revisions
                &&& forall|n: int|
                    0 <= n < revisions ==> is_size(
                        #[trigger] sizes@[n],
                        rows as nat,
                        grow_pct as nat,
                        edit_pct as nat,
                        n as nat,
                    )
            },
            None => exists|n: nat|
                n < revisions && !#[trigger] revision_fits(
                    rows as nat,
                    grow_pct as nat,
                    edit_pct as nat,
                    n,
                ),
        },
{
    let mut sizes: Vec<(usize, usize)> = Vec::new();
    let mut now: usize = rows;
    let ghost grow = grow_pct as nat;
    let ghost edit = edit_pct as nat;
    while sizes.len() < revisions
        invariant
            sizes@.len() <= revisions,
            grow == grow_pct,
            edit == edit_pct,
            now == rows_at(rows as nat, grow, sizes@.len()),
            forall|n: int|
                0 <= n < sizes@.len() ==> is_size(
                    #[trigger] sizes@[n],
                    rows as nat,
                    grow,
                    edit,
                    n as nat,
                ),
        decreases revisions - sizes@.len(),
    {
        let ghost n = sizes@.len();
        let ghost fits = revision_fits(rows as nat, grow, edit, n);
        let ghost before = sizes@;
        assert(now * grow_pct == rows_at(rows as nat, grow, n) * grow);
        let appended: usize = match now.checked_mul(grow_pct) {
            Some(v) => v / 100,
            None => {
                assert(!fits);
                return None;
            },
        };
        let after: usize = match now.checked_add(appended) {
            Some(v) => v,
            None => {
                assert(!fits);
                return None;
            },
        };
        assert(after == rows_at(rows as nat, grow, n + 1));
        assert(after * edit_pct == rows_at(rows as nat, grow, n + 1) * edit);
        let edited: usize = match after.checked_mul(edit_pct) {
            Some(v) => v / 100,
            None => {
                assert(!fits);
                return None;
            },
        };
        sizes.push((appended, edited));
        now = after;
        assert(is_size(sizes@[n as int], rows as nat, grow, edit, n));
        assert forall|k: int| 0 <= k < sizes@.len() implies is_size(
            #[trigger] sizes@[k],
            rows as nat,
            grow,
            edit,
            k as nat,
        ) by {
            if k < n {
                assert(sizes@[k] == before[k]);
            }
        }
    }
    Some(sizes)
}

/// Draws a row to edit, of so many.
pub fn pick(r: &mut Generator, rows: usize) -> (at: usize)
    requires
        rows > 0,
    ensures
        at < rows,
        match old(r)@ {
            Some(s) => at == s.place(rows as nat) && final(r)@ == Some(s.after_place(rows as nat)),
            None => final(r)@ is None,
        },
{
    draw_place(r, rows)
}

/// What is drawn for a revision of a table: rows to append, and then rows to edit, with what
/// they hold from now on.
pub struct Revision {
    pub appended: Vec<Draw>,
    pub edited: Vec<(usize, Draw)>,
}

/// After the first `n` rows were appended.
pub open spec fn grown(rows: Seq<Seq<char>>, draws: Seq<Draw>, n: nat) -> Seq<Seq<char>>
    decreases n,
{
    if n == 0 {
        rows
    } else {
        let before = grown(rows, draws, (n - 1) as nat);
        before.push(row_of(before.len(), draws[n - 1]))
    }
}

/// After the first `n` rows were edited.
pub open spec fn redrawn(rows: Seq<Seq<char>>, edits: Seq<(usize, Draw)>, n: nat) -> Seq<Seq<char>>
    decreases n,
{
    if n == 0 {
        rows
    } else {
        let (at, draw) = edits[n - 1];
        redrawn(rows, edits, (n - 1) as nat).update(at as int, row_of(at as nat, draw))
    }
}

/// After a revision.
pub open spec fn revised(rows: Seq<Seq<char>>, revision: Revision) -> Seq<Seq<char>> {
    let longer = grown(rows, revision.appended@, revision.appended@.len());
    redrawn(longer, revision.edited@, revision.edited@.len())
}

/// After the first `n` revisions of a table that begins with these rows.
pub open spec fn table_at(first: Seq<Draw>, revisions: Seq<Revision>, n: nat) -> Seq<Seq<char>>
    decreases n,
{
    if n == 0 {
        grown(Seq::empty(), first, first.len())
    } else {
        revised(table_at(first, revisions, (n - 1) as nat), revisions[n - 1])
    }
}

/// Rows after the first `n` revisions.
pub open spec fn count_at(first: Seq<Draw>, revisions: Seq<Revision>, n: nat) -> nat
    decreases n,
{
    if n == 0 {
        first.len()
    } else {
        count_at(first, revisions, (n - 1) as nat) + revisions[n - 1].appended@.len()
    }
}

/// Every row that is edited is there.
pub open spec fn edits_lie_in(revision: Revision, rows: nat) -> bool {
    forall|j: int|
        #![trigger revision.edited@[j]]
        0 <= j < revision.edited@.len() ==> revision.edited@[j].0 < rows
            + revision.appended@.len()
}

impl Table {
    fn append_all(&mut self, draws: &Vec<Draw>)
        requires
            old(self).well_formed(),
        ensures
            final(self).well_formed(),
            final(self)@ == grown(old(self)@, draws@, draws@.len()),
            final(self)@.len() == old(self)@.len() + draws@.len(),
    {
        let mut i: usize = 0;
        while i < draws.len()
            invariant
                i <= draws@.len(),
                self.well_formed(),
                self@ == grown(old(self)@, draws@, i as nat),
                self@.len() == old(self)@.len() + i,
            decreases draws@.len() - i,
        {
            self.append(&draws[i]);
            i = i + 1;
        }
    }

    /// Appends rows, and then edits some of them all.
    pub fn revise(&mut self, revision: &Revision)
        requires
            old(self).well_formed(),
            edits_lie_in(*revision, old(self)@.len()),
        ensures
            final(self).well_formed(),
            final(self)@ == revised(old(self)@, *revision),
            final(self)@.len() == old(self)@.len() + revision.appended@.len(),
    {
        self.append_all(&revision.appended);
        let ghost longer = self@;
        let mut i: usize = 0;
        while i < revision.edited.len()
            invariant
                i <= revision.edited@.len(),
                self.well_formed(),
                self@ == redrawn(longer, revision.edited@, i as nat),
                self@.len() == longer.len() == old(self)@.len() + revision.appended@.len(),
                edits_lie_in(*revision, old(self)@.len()),
            decreases revision.edited@.len() - i,
        {
            let at: usize = revision.edited[i].0;
            assert(revision.edited@[i as int].0 < self@.len());
            self.edit(at, &revision.edited[i].1);
            i = i + 1;
        }
    }
}

/// The versions of a table: as it begins, and after each revision.
pub fn revision_series(first: &Vec<Draw>, revisions: &Vec<Revision>) -> (r: Vec<String>)
    requires
        forall|n: int|
            #![trigger revisions@[n]]
            0 <= n < revisions@.len() ==> edits_lie_in(
                revisions@[n],
                count_at(first@, revisions@, n as nat),
            ),
    ensures
        r@.len() == revisions@.len() + 1,
        forall|n: int|
            #![trigger r@[n]]
            0 <= n <= revisions@.len() ==> r@[n]@ == rows_text(
                table_at(first@, revisions@, n as nat),
            ),
{
    let mut table = Table::new();
    table.append_all(first);
    let mut out: Vec<String> = Vec::new();
    out.push(table.text());
    let mut i: usize = 0;
    while i < revisions.len()
        invariant
            i <= revisions@.len(),
            table.well_formed(),
            table@ == table_at(first@, revisions@, i as nat),
            table@.len() == count_at(first@, revisions@, i as nat),
            out@.len() == i + 1,
            forall|n: int|
                #![trigger out@[n]]
                0 <= n <= i ==> out@[n]@ == rows_text(table_at(first@, revisions@, n as nat)),
            forall|n: int|
                #![trigger revisions@[n]]
                0 <= n < revisions@.len() ==> edits_lie_in(
                    revisions@[n],
                    count_at(first@, revisions@, n as nat),
                ),
        decreases revisions@.len() - i,
    {
        table.revise(&revisions[i]);
        out.push(table.text());
        i = i + 1;
    }
    out
}

/// The least amount that a row can have.
pub const AMOUNT_FROM: u32 = 1000;

/// All amounts that a row can have are below this.
pub const AMOUNT_TO: u32 = 99999;

/// Draws the amount of a row.
pub fn draw_amount(r: &mut Generator) -> (v: u32)
    ensures
        AMOUNT_FROM <= v < AMOUNT_TO,
        match old(r)@ {
            Some(s) => v == s.number(32, AMOUNT_FROM as nat, AMOUNT_TO as nat) && final(r)@
                == Some(s.asking(32, AMOUNT_FROM as nat, AMOUNT_TO as nat)),
            None => final(r)@ is None,
        },
{
    draw_between(r, AMOUNT_FROM, AMOUNT_TO)
}

/// What an agent does in one turn.
pub struct Turn {
    pub reasoning: String,
    pub command: u32,
    pub input: u32,
    pub output: u32,
}

/// `n` times the same text.
pub open spec fn repeated_text(s: Seq<char>, n: nat) -> Seq<char>
    decreases n,
{
    if n == 0 {
        Seq::empty()
    } else {
        repeated_text(s, (n - 1) as nat) + s
    }
}

/// A number in at least two digits.
pub open spec fn two_digits(v: nat) -> Seq<char> {
    if v < 10 {
        "0"@ + decimal(v)
    } else {
        decimal(v)
    }
}

fn append_two_digits(s: &mut String, v: u64)
    ensures
        final(s)@ == old(s)@ + two_digits(v as nat),
{
    if v < 10 {
        s.append("0");
    }
    s.append(decimal_text(v).as_str());
    assert(s@ =~= old(s)@ + two_digits(v as nat));
}

fn append_repeated(s: &mut String, part: &str, n: usize)
    ensures
        final(s)@ == old(s)@ + repeated_text(part@, n as nat),
{
    let mut i: usize = 0;
    let ghost before = s@;
    assert(s@ =~= before + repeated_text(part@, 0));
    while i < n
        invariant
            i <= n,
            s@ == before + repeated_text(part@, i as nat),
        decreases n - i,
    {
        s.append(part);
        i = i + 1;
        assert(s@ =~= before + repeated_text(part@, i as nat));
    }
}

/// Turn number `n` of a trajectory whose steps have about `step_bytes` bytes.
pub open spec fn step_of(n: nat, step_bytes: nat, turn: Turn) -> Seq<char> {
    "    {\"step_id\":"@ + decimal(n) + ",\"timestamp\":\"2026-09-10T00:"@ + two_digits(n / 60)
        + ":"@ + two_digits(n % 60) + "Z\",\"source\":\"agent\",\"message\":\""@
        + repeated_text("step output "@, step_bytes / 96) + "\",\"reasoning_content\":\""@
        + turn.reasoning@
        + "\",\"tool_calls\":[{\"name\":\"bash\",\"arguments\":{\"command\":\""@ + decimal(
        turn.command as nat,
    ) + "\"}}],\"metrics\":{\"input_tokens\":"@ + decimal(turn.input as nat)
        + ",\"output_tokens\":"@ + decimal(turn.output as nat) + "}}"@
}

/// One step of a trajectory.
pub fn step(n: usize, step_bytes: usize, turn: &Turn) -> (r: String)
    ensures
        r@ == step_of(n as nat, step_bytes as nat, *turn),
{
    let mut s = String::from_str("    {\"step_id\":");
    s.append(decimal_text(n as u64).as_str());
    s.append(",\"timestamp\":\"2026-09-10T00:");
    append_two_digits(&mut s, n as u64 / 60);
    s.append(":");
    append_two_digits(&mut s, n as u64 % 60);
    s.append("Z\",\"source\":\"agent\",\"message\":\"");
    append_repeated(&mut s, "step output ", step_bytes / 96);
    s.append("\",\"reasoning_content\":\"");
    s.append(turn.reasoning.as_str());
    s.append("\",\"tool_calls\":[{\"name\":\"bash\",\"arguments\":{\"command\":\"");
    s.append(decimal_text(turn.command as u64).as_str());
    s.append("\"}}],\"metrics\":{\"input_tokens\":");
    s.append(decimal_text(turn.input as u64).as_str());
    s.append(",\"output_tokens\":");
    s.append(decimal_text(turn.output as u64).as_str());
    s.append("}}");
    s
}

/// The steps with a comma and a line break between them.
pub open spec fn steps_text(steps: Seq<String>) -> Seq<char>
    decreases steps.len(),
{
    if steps.len() == 0 {
        Seq::empty()
    } else if steps.len() == 1 {
        steps[0]@
    } else {
        steps_text(steps.drop_last()) + ",\n"@ + steps.last()@
    }
}

/// A trajectory with these steps.
pub open spec fn document_of(steps: Seq<String>) -> Seq<char> {
    "{\n  \"schema_version\":\"1.8\",\n  \"session_id\":\"sess-abc\",\n  \"trajectory_id\":\"traj-001\",\n  \"agent\":{\"name\":\"operator\",\"model_name\":\"m\"},\n  \"steps\":[\n"@
        + steps_text(steps) + "\n  ],\n  \"final_metrics\":{\"steps\":"@ + decimal(steps.len())
        + ",\"total_tokens\":"@ + decimal(steps.len() * 1234) + "}\n}\n"@
}

/// A trajectory with these steps: one root object, written in full.
pub fn document(steps: &Vec<String>) -> (r: String)
    requires
        steps@.len() * 1234 <= u64::MAX,
    ensures
        r@ == document_of(steps@),
{
    let mut body = String::from_str("");
    let mut i: usize = 0;
    proof {
        reveal_strlit("");
        assert(body@ =~= steps_text(steps@.subrange(0, 0)));
    }
    while i < steps.len()
        invariant
            i <= steps@.len(),
            body@ == steps_text(steps@.subrange(0, i as int)),
        decreases steps@.len() - i,
    {
        let ghost before = body@;
        if i > 0 {
            body.append(",\n");
        }
        body.append(steps[i].as_str());
        proof {
            let next = steps@.subrange(0, i + 1);
            assert(next.drop_last() =~= steps@.subrange(0, i as int));
            assert(next.last() == steps@[i as int]);
            assert(i == 0 ==> before =~= Seq::<char>::empty());
            assert(body@ =~= steps_text(next));
        }
        i = i + 1;
    }
    assert(steps@.subrange(0, i as int) =~= steps@);
    let n: u64 = steps.len() as u64;
    let mut s = String::from_str(
        "{\n  \"schema_version\":\"1.8\",\n  \"session_id\":\"sess-abc\",\n  \"trajectory_id\":\"traj-001\",\n  \"agent\":{\"name\":\"operator\",\"model_name\":\"m\"},\n  \"steps\":[\n",
    );
    s.append(body.as_str());
    s.append("\n  ],\n  \"final_metrics\":{\"steps\":");
    s.append(decimal_text(n).as_str());
    s.append(",\"total_tokens\":");
    s.append(decimal_text(n * 1234).as_str());
    s.append("}\n}\n");
    s
}

/// The `n` letters that a generator gives, and the generator after them.
pub open spec fn letters(s: Stream, n: nat) -> (Seq<char>, Stream)
    decreases n,
{
    if n == 0 {
        (Seq::empty(), s)
    } else {
        let (v, t) = letters(s, (n - 1) as nat);
        (v.push("abcdefghijklmnopqrstuvwxyz"@[t.number(8, 0, 26) as int]), t.asking(8, 0, 26))
    }
}

/// `t` is the turn that a generator gives, with `n` letters of reasoning.
pub open spec fn is_drawn(t: Turn, s: Stream, n: nat) -> bool {
    let (reasoning, s1) = letters(s, n);
    let s2 = s1.asking(32, 1000, 9999);
    let s3 = s2.asking(32, 100, 900);
    &&& t.reasoning@ == reasoning
    &&& t.command == s1.number(32, 1000, 9999)
    &&& t.input == s2.number(32, 100, 900)
    &&& t.output == s3.number(32, 50, 500)
}

/// The generator after a turn.
pub open spec fn after_turn(s: Stream, n: nat) -> Stream {
    letters(s, n).1.asking(32, 1000, 9999).asking(32, 100, 900).asking(32, 50, 500)
}

/// The generator after `i` turns.
pub open spec fn after_turns(s: Stream, n: nat, i: nat) -> Stream
    decreases i,
{
    if i == 0 {
        s
    } else {
        after_turn(after_turns(s, n, (i - 1) as nat), n)
    }
}

/// Draws what an agent does: a reasoning of `n` lower-case letters, and numbers.
fn draw_turn(r: &mut Generator, n: usize) -> (t: Turn)
    ensures
        is_turn(t, n as nat),
        old(r)@ matches Some(s) ==> is_drawn(t, s, n as nat) && final(r)@ == Some(
            after_turn(s, n as nat),
        ),
{
    let alphabet = "abcdefghijklmnopqrstuvwxyz";
    let ghost begin = r@;
    proof {
        reveal_strlit("abcdefghijklmnopqrstuvwxyz");
        reveal_strlit("");
    }
    let mut reasoning = String::from_str("");
    let mut i: usize = 0;
    assert(reasoning@ =~= Seq::<char>::empty());
    while i < n
        invariant
            i <= n,
            alphabet@ == "abcdefghijklmnopqrstuvwxyz"@,
            reasoning@.len() == i,
            forall|j: int| 0 <= j < i ==> 'a' <= #[trigger] reasoning@[j] <= 'z',
            begin matches Some(s) ==> reasoning@ == letters(s, i as nat).0 && r@ == Some(
                letters(s, i as nat).1,
            ),
        decreases n - i,
    {
        proof {
            reveal_strlit("abcdefghijklmnopqrstuvwxyz");
        }
        let ghost before = reasoning@;
        let at: usize = draw_small(r, 26) as usize;
        reasoning.append(alphabet.substring_char(at, at + 1));
        assert(reasoning@ =~= before.push(alphabet@[at as int]));
        i = i + 1;
    }
    let command: u32 = draw_between(r, 1000, 9999);
    let input: u32 = draw_between(r, 100, 900);
    let output: u32 = draw_between(r, 50, 500);
    Turn { reasoning, command, input, output }
}

/// What can be drawn for a turn whose reasoning has `n` letters.
pub open spec fn is_turn(t: Turn, n: nat) -> bool {
    &&& t.reasoning@.len() == n
    &&& forall|j: int| 0 <= j < n ==> 'a' <= #[trigger] t.reasoning@[j] <= 'z'
    &&& 1000 <= t.command < 9999
    &&& 100 <= t.input < 900
    &&& 50 <= t.output < 500
}

/// The seed of every trajectory.
pub const TRAJECTORY_SEED: u64 = 31337;

/// `doc` is a trajectory after turn `i`, with all steps so far.
pub open spec fn is_version(
    doc: String,
    steps: Seq<String>,
    turns: Seq<Turn>,
    step_bytes: nat,
    i: int,
) -> bool {
    &&& is_turn(turns[i], step_bytes / 8)
    &&& is_drawn(
        turns[i],
        after_turns(Stream::start(TRAJECTORY_SEED), step_bytes / 8, i as nat),
        step_bytes / 8,
    )
    &&& steps[i]@ == step_of((i + 1) as nat, step_bytes, turns[i])
    &&& doc@ == document_of(steps.subrange(0, i + 1))
}

/// `docs` are a trajectory after each of its turns: every one is written in full,
/// with all steps so far.
pub open spec fn is_trajectory(
    docs: Seq<String>,
    steps: Seq<String>,
    turns: Seq<Turn>,
    step_bytes: nat,
) -> bool {
    &&& steps.len() == turns.len() == docs.len()
    &&& forall|i: int|
        0 <= i < docs.len() ==> is_version(#[trigger] docs[i], steps, turns, step_bytes, i)
}

/// A trajectory of an agent after each of its turns, rewritten wholesale every
/// time.
pub fn atif_series(turns: usize, step_bytes: usize) -> (r: Vec<String>)
    requires
        turns * 1234 <= u64::MAX,
    ensures
        r@.len() == turns,
        exists|steps: Seq<String>, drawn: Seq<Turn>| #[trigger]
            is_trajectory(r@, steps, drawn, step_bytes as nat),
{
    let mut r = Generator::new(TRAJECTORY_SEED);
    let mut steps: Vec<String> = Vec::new();
    let mut out: Vec<String> = Vec::new();
    let ghost mut drawn: Seq<Turn> = Seq::empty();
    let mut i: usize = 0;
    while i < turns
        invariant
            i <= turns,
            turns * 1234 <= u64::MAX,
            steps@.len() == i,
            out@.len() == i,
            is_trajectory(out@, steps@, drawn, step_bytes as nat),
            r@ == Some(
                after_turns(
                    Stream::start(TRAJECTORY_SEED),
                    (step_bytes / 8) as nat,
                    i as nat,
                ),
            ),
        decreases turns - i,
    {
        let turn = draw_turn(&mut r, step_bytes / 8);
        let text = step(i + 1, step_bytes, &turn);
        let ghost before = steps@;
        let ghost docs = out@;
        let ghost earlier = drawn;
        proof {
            drawn = drawn.push(turn);
        }
        steps.push(text);
        let doc = document(&steps);
        out.push(doc);
        proof {
            assert forall|j: int| 0 <= j < i + 1 implies is_version(
                #[trigger] out@[j],
                steps@,
                drawn,
                step_bytes as nat,
                j,
            ) by {
                if j < i {
                    assert(out@[j] == docs[j]);
                    assert(is_version(docs[j], before, earlier, step_bytes as nat, j));
                    assert(drawn[j] == earlier[j]);
                    assert(steps@[j] == before[j]);
                    assert(steps@.subrange(0, j + 1) =~= before.subrange(0, j + 1));
                } else {
                    assert(steps@.subrange(0, j + 1) =~= steps@);
                }
            }
            assert(is_trajectory(out@, steps@, drawn, step_bytes as nat));
        }
        i = i + 1;
    }
    out
}

/// A row of a table tells its number first and its class last, one of twenty-three, told by
/// the number; its amount, its score and its flag stand between them.
pub proof fn law_table_row_tells_what_was_drawn(id: u64, draw: &Draw, r: String)
    requires
        call_ensures(csv_row, (id, draw), r),
    ensures
        ({
            let front = decimal(id as nat) + ","@ + decimal(draw.amount as nat) + ","@;
            let flag = if draw.flag {
                ",true"@
            } else {
                ",false"@
            };
            let back = flag + ",class_"@ + decimal(id as nat % 23) + "\n"@;
            &&& r@.len() == front.len() + draw.score@.len() + back.len()
            &&& r@.subrange(0, front.len() as int) == front
            &&& r@.subrange(front.len() as int, front.len() as int + draw.score@.len())
                == draw.score@
            &&& r@.subrange(r@.len() - back.len(), r@.len() as int) == back
        }),
{
    reveal_strlit(",");
    reveal_strlit(",true");
    reveal_strlit(",false");
    reveal_strlit("true");
    reveal_strlit("false");
    let front = decimal(id as nat) + ","@ + decimal(draw.amount as nat) + ","@;
    let flag = if draw.flag {
        ",true"@
    } else {
        ",false"@
    };
    assert(","@ + flag_of(draw.flag) =~= flag);
    let back = flag + ",class_"@ + decimal(id as nat % 23) + "\n"@;
    assert(r@ =~= front + draw.score@ + back);
    assert(r@.subrange(0, front.len() as int) =~= front);
    assert(r@.subrange(front.len() as int, front.len() as int + draw.score@.len())
        =~= draw.score@);
    assert(r@.subrange(r@.len() - back.len(), r@.len() as int) =~= back);
}

/// The number that a row starts with is read off it, up to the first comma or the end, with a
/// plus sign before it or without, as long as 64 bits hold it. A row that starts with anything
/// else has the number zero.
pub proof fn law_number_is_read_off_the_row(v: nat, rest: Seq<char>, row: &str, r: u64)
    requires
        call_ensures(row_id, (row,), r),
        rest.len() > 0 ==> rest[0] == ',',
    ensures
        row@ == decimal(v) + rest || row@ == "+"@ + decimal(v) + rest ==> r == if v <= u64::MAX {
            v
        } else {
            0
        },
        row@.len() == 0 || row@[0] == ',' ==> r == 0,
        row@.len() > 0 && !('0' <= row@[0] <= '9') && row@[0] != '+' ==> r == 0,
{
    reveal_strlit("+");
    let d = decimal(v);
    lemma_decimal_is_read(v);
    let s = row@;
    if s == d + rest {
        assert(s.subrange(0, d.len() as int) =~= d);
        assert forall|i: int| 0 <= i < d.len() implies #[trigger] s[i] != ',' by {
            assert(is_digit(d[i]));
        }
        lemma_comma_or_end(s, 0, d.len() as int);
        assert(is_digit(d[0]));
    } else if s == "+"@ + d + rest {
        let f = "+"@ + d;
        assert(s.subrange(0, f.len() as int) =~= f);
        assert forall|i: int| 0 <= i < f.len() implies #[trigger] s[i] != ',' by {
            if i > 0 {
                assert(is_digit(d[i - 1]));
            }
        }
        lemma_comma_or_end(s, 0, f.len() as int);
        assert(f.subrange(1, f.len() as int) =~= d);
    }
    if s.len() == 0 || s[0] == ',' {
        assert(first_field(s) =~= Seq::<char>::empty());
    } else if !is_digit(s[0]) && s[0] != '+' {
        let f = first_field(s);
        lemma_comma_bounds(s, 0);
        assert(f.len() > 0 && f[0] == s[0]);
        assert(f.subrange(0, 1).last() == s[0]);
        lemma_not_a_number(f, 1);
    }
}

proof fn lemma_comma_or_end(s: Seq<char>, from: int, at: int)
    requires
        0 <= from <= at <= s.len(),
        at < s.len() ==> s[at] == ',',
        forall|i: int| from <= i < at ==> #[trigger] s[i] != ',',
    ensures
        comma_from(s, from) == at,
    decreases at - from,
{
    if from < at {
        lemma_comma_or_end(s, from + 1, at);
    }
}

proof fn lemma_comma_bounds(s: Seq<char>, from: int)
    requires
        0 <= from <= s.len(),
    ensures
        from <= comma_from(s, from) <= s.len(),
        from < s.len() && s[from] != ',' ==> comma_from(s, from) > from,
    decreases s.len() - from,
{
    if from < s.len() && s[from] != ',' {
        lemma_comma_bounds(s, from + 1);
    }
}

/// Numbers that are written down are read back as they were, digits and nothing else.
pub proof fn law_decimal_is_read_back(v: nat)
    ensures
        number_of(decimal(v)) == Some(v),
        decimal(v).len() > 0,
        forall|i: int| 0 <= i < decimal(v).len() ==> '0' <= #[trigger] decimal(v)[i] <= '9',
{
    lemma_decimal_is_read(v);
}

/// A table is written row by row, each as it is: the text of some rows and more rows is the
/// text of both, one behind the other.
pub proof fn law_table_is_its_rows(a: Seq<Seq<char>>, b: Seq<Seq<char>>, row: Seq<char>)
    ensures
        rows_text(a + b) == rows_text(a) + rows_text(b),
        rows_text(seq![row]) == row,
        rows_text(Seq::empty()) == Seq::<char>::empty(),
    decreases b.len(),
{
    let one = seq![row];
    assert(one.drop_last() =~= Seq::<Seq<char>>::empty());
    assert(rows_text(one.drop_last()) =~= Seq::<char>::empty());
    assert(rows_text(one) =~= row);
    if b.len() == 0 {
        assert(a + b =~= a);
        assert(rows_text(a) + rows_text(b) =~= rows_text(a));
    } else {
        law_table_is_its_rows(a, b.drop_last(), row);
        assert((a + b).drop_last() =~= a + b.drop_last());
        assert(rows_text(a + b) =~= rows_text(a) + rows_text(b));
    }
}

/// Rows that are appended leave those before them as they are, and are numbered on from them.
pub proof fn law_appended_rows_are_numbered_on(
    rows: Seq<Seq<char>>,
    draws: Seq<Draw>,
    n: nat,
    i: int,
)
    requires
        n <= draws.len(),
        0 <= i < rows.len() + n,
    ensures
        grown(rows, draws, n).len() == rows.len() + n,
        i < rows.len() ==> grown(rows, draws, n)[i] == rows[i],
        i >= rows.len() ==> ({
            let draw = draws[i - rows.len()];
            grown(rows, draws, n)[i] == csv_row_of(
                i as nat,
                draw.amount as nat,
                draw.score@,
                draw.flag,
            )
        }),
    decreases n,
{
    if n > 0 {
        if i < rows.len() + n - 1 {
            law_appended_rows_are_numbered_on(rows, draws, (n - 1) as nat, i);
        } else {
            lemma_grown_len(rows, draws, (n - 1) as nat);
        }
    }
}

proof fn lemma_grown_len(rows: Seq<Seq<char>>, draws: Seq<Draw>, n: nat)
    ensures
        grown(rows, draws, n).len() == rows.len() + n,
    decreases n,
{
    if n > 0 {
        lemma_grown_len(rows, draws, (n - 1) as nat);
    }
}

/// A row is what it was last drawn as, under the number that it has; one that is not drawn
/// anew stays as it is.
pub proof fn law_last_edit_of_a_row_counts(
    rows: Seq<Seq<char>>,
    edits: Seq<(usize, Draw)>,
    n: nat,
    i: int,
    k: int,
)
    requires
        n <= edits.len(),
        0 <= i < rows.len(),
        -1 <= k < n,
        forall|j: int| k < j < n ==> (#[trigger] edits[j]).0 != i,
        k >= 0 ==> edits[k].0 == i,
        forall|j: int| 0 <= j < n ==> (#[trigger] edits[j]).0 < rows.len(),
    ensures
        redrawn(rows, edits, n).len() == rows.len(),
        k < 0 ==> redrawn(rows, edits, n)[i] == rows[i],
        k >= 0 ==> redrawn(rows, edits, n)[i] == csv_row_of(
            i as nat,
            edits[k].1.amount as nat,
            edits[k].1.score@,
            edits[k].1.flag,
        ),
    decreases n,
{
    if n > 0 {
        lemma_redrawn_len(rows, edits, (n - 1) as nat);
        assert(edits[n - 1].0 < rows.len());
        if k < n - 1 {
            assert(edits[n - 1].0 != i);
            law_last_edit_of_a_row_counts(rows, edits, (n - 1) as nat, i, k);
        }
    }
}

proof fn lemma_redrawn_len(rows: Seq<Seq<char>>, edits: Seq<(usize, Draw)>, n: nat)
    requires
        n <= edits.len(),
        forall|j: int| 0 <= j < n ==> (#[trigger] edits[j]).0 < rows.len(),
    ensures
        redrawn(rows, edits, n).len() == rows.len(),
    decreases n,
{
    if n > 0 {
        lemma_redrawn_len(rows, edits, (n - 1) as nat);
        assert(edits[n - 1].0 < rows.len());
    }
}

/// A series has the table as it begins, and after each revision: the rows that were there and
/// those that the revision appends, some of them all drawn anew.
pub proof fn law_series_has_every_version(
    first: &Vec<Draw>,
    revisions: &Vec<Revision>,
    r: Vec<String>,
    n: int,
)
    requires
        call_ensures(revision_series, (first, revisions), r),
        0 <= n <= revisions@.len(),
        forall|m: int|
            #![trigger revisions@[m]]
            0 <= m < revisions@.len() ==> edits_lie_in(
                revisions@[m],
                count_at(first@, revisions@, m as nat),
            ),
    ensures
        r@.len() == revisions@.len() + 1,
        r@[n]@ == rows_text(table_at(first@, revisions@, n as nat)),
        table_at(first@, revisions@, 0) == grown(Seq::empty(), first@, first@.len()),
        n > 0 ==> ({
            let before = table_at(first@, revisions@, (n - 1) as nat);
            let revision = revisions@[n - 1];
            let longer = grown(before, revision.appended@, revision.appended@.len());
            table_at(first@, revisions@, n as nat) == redrawn(
                longer,
                revision.edited@,
                revision.edited@.len(),
            )
        }),
        table_at(first@, revisions@, n as nat).len() == count_at(first@, revisions@, n as nat),
{
    lemma_table_len(first@, revisions@, n as nat);
    assert(r@[n]@ == r@[n]@);
}

proof fn lemma_table_len(first: Seq<Draw>, revisions: Seq<Revision>, n: nat)
    requires
        n <= revisions.len(),
        forall|m: int|
            #![trigger revisions[m]]
            0 <= m < revisions.len() ==> edits_lie_in(
                revisions[m],
                count_at(first, revisions, m as nat),
            ),
    ensures
        table_at(first, revisions, n).len() == count_at(first, revisions, n),
    decreases n,
{
    if n == 0 {
        lemma_grown_len(Seq::empty(), first, first.len());
    } else {
        lemma_table_len(first, revisions, (n - 1) as nat);
        let before = table_at(first, revisions, (n - 1) as nat);
        let revision = revisions[n - 1];
        lemma_grown_len(before, revision.appended@, revision.appended@.len());
        let longer = grown(before, revision.appended@, revision.appended@.len());
        assert(edits_lie_in(revision, before.len()));
        lemma_redrawn_len(longer, revision.edited@, revision.edited@.len());
    }
}

/// Each revision grows a table by a percentage of the rows that it has by then, and edits a
/// percentage of those that it has afterwards, both rounded down. That is told wherever all of
/// it can be counted, and nowhere else.
pub proof fn law_revisions_grow_by_a_percentage(
    rows: usize,
    revisions: usize,
    grow_pct: usize,
    edit_pct: usize,
    r: Option<Vec<(usize, usize)>>,
    now: Seq<nat>,
)
    requires
        call_ensures(revision_sizes, (rows, revisions, grow_pct, edit_pct), r),
        now.len() == revisions + 1,
        now[0] == rows,
        forall|n: int|
            0 <= n < revisions ==> now[n + 1] == #[trigger] now[n] + now[n] * grow_pct / 100,
    ensures
        r is Some <==> forall|n: int|
            0 <= n < revisions ==> #[trigger] now[n] * grow_pct <= usize::MAX && now[n + 1]
                <= usize::MAX && now[n + 1] * edit_pct <= usize::MAX,
        r matches Some(sizes) ==> sizes@.len() == revisions && forall|n: int|
            0 <= n < revisions ==> (#[trigger] sizes@[n]).0 == now[n + 1] - now[n] && sizes@[n].1
                == now[n + 1] * edit_pct / 100,
{
    let (g, e) = (grow_pct as nat, edit_pct as nat);
    assert forall|n: int| 0 <= n <= revisions implies #[trigger] now[n] == rows_at(
        rows as nat,
        g,
        n as nat,
    ) by {
        lemma_rows_now(rows, revisions, grow_pct, now, n as nat);
    }
    match r {
        Some(sizes) => {
            assert forall|n: int| 0 <= n < revisions implies (#[trigger] sizes@[n]).0 == now[n + 1]
                - now[n] && sizes@[n].1 == now[n + 1] * edit_pct / 100 by {
                assert(is_size(sizes@[n], rows as nat, g, e, n as nat));
                assert(now[n] == rows_at(rows as nat, g, n as nat));
                assert(now[n + 1] == rows_at(rows as nat, g, (n + 1) as nat));
            }
            assert forall|n: int| 0 <= n < revisions implies #[trigger] now[n] * grow_pct
                <= usize::MAX && now[n + 1] <= usize::MAX && now[n + 1] * edit_pct
                <= usize::MAX by {
                assert(is_size(sizes@[n], rows as nat, g, e, n as nat));
                assert(now[n + 1] == rows_at(rows as nat, g, (n + 1) as nat));
            }
        },
        None => {
            let n = choose|n: nat|
                n < revisions && !#[trigger] revision_fits(rows as nat, g, e, n);
            assert(now[n as int] == rows_at(rows as nat, g, n));
            assert(now[n as int + 1] == rows_at(rows as nat, g, n + 1));
        },
    }
}

proof fn lemma_rows_now(
    rows: usize,
    revisions: usize,
    grow_pct: usize,
    now: Seq<nat>,
    n: nat,
)
    requires
        now.len() == revisions + 1,
        now[0] == rows,
        forall|n: int|
            0 <= n < revisions ==> now[n + 1] == #[trigger] now[n] + now[n] * grow_pct / 100,
        n <= revisions,
    ensures
        now[n as int] == rows_at(rows as nat, grow_pct as nat, n),
    decreases n,
{
    if n > 0 {
        lemma_rows_now(rows, revisions, grow_pct, now, (n - 1) as nat);
        let before = now[n - 1];
        assert(before * grow_pct == rows_at(rows as nat, grow_pct as nat, (n - 1) as nat)
            * grow_pct as nat);
    }
}

/// A text that is repeated is that text, as often as was asked for: it comes again after its
/// length. A number below a hundred has two digits.
pub proof fn law_text_comes_again(s: Seq<char>, n: nat, m: nat, v: nat)
    requires
        v < 100,
    ensures
        repeated_text(s, n + m) == repeated_text(s, n) + repeated_text(s, m),
        repeated_text(s, 1) == s,
        repeated_text(s, 0).len() == 0,
        two_digits(v).len() == 2,
        number_of(two_digits(v)) == Some(v),
    decreases m,
{
    assert(repeated_text(s, 0) =~= Seq::<char>::empty());
    assert(repeated_text(s, 1) == repeated_text(s, 0) + s);
    assert(repeated_text(s, 1) =~= s);
    if m == 0 {
        assert(repeated_text(s, n) + repeated_text(s, 0) =~= repeated_text(s, n));
    } else {
        law_text_comes_again(s, n, (m - 1) as nat, v);
        assert((n + m - 1) as nat == n + (m - 1) as nat);
        assert(repeated_text(s, n + m) =~= repeated_text(s, n) + repeated_text(s, m));
    }
    reveal_strlit("0");
    lemma_decimal_is_read(v);
    if v < 10 {
        lemma_digit(v);
        let t = "0"@ + decimal(v);
        assert(t.drop_last() =~= "0"@);
        assert(number_of("0"@) == Some(0nat));
        assert(t.last() == digit(v)[0]);
    } else {
        lemma_digit(v / 10);
        lemma_digit(v % 10);
        assert(decimal(v).len() == decimal(v / 10).len() + 1);
    }
}

/// A step tells its number, the minute and the second that it stands for, and what was drawn
/// for it; the message it brings is as often the same text as fits.
pub proof fn law_step_tells_its_turn(n: usize, step_bytes: usize, turn: &Turn, r: String)
    requires
        call_ensures(step, (n, step_bytes, turn), r),
    ensures
        ({
            let clock = two_digits(n as nat / 60) + ":"@ + two_digits(n as nat % 60);
            let front = "    {\"step_id\":"@ + decimal(n as nat)
                + ",\"timestamp\":\"2026-09-10T00:"@ + clock
                + "Z\",\"source\":\"agent\",\"message\":\""@;
            let message = repeated_text("step output "@, step_bytes as nat / 96);
            let back = "\"}}],\"metrics\":{\"input_tokens\":"@ + decimal(turn.input as nat)
                + ",\"output_tokens\":"@ + decimal(turn.output as nat) + "}}"@;
            let mid = "\",\"reasoning_content\":\""@ + turn.reasoning@
                + "\",\"tool_calls\":[{\"name\":\"bash\",\"arguments\":{\"command\":\""@
                + decimal(turn.command as nat);
            &&& r@.len() == front.len() + message.len() + mid.len() + back.len()
            &&& r@.subrange(0, front.len() as int) == front
            &&& r@.subrange(front.len() as int, front.len() as int + message.len()) == message
            &&& r@.subrange(
                front.len() as int + message.len(),
                r@.len() - back.len(),
            ) == mid
            &&& r@.subrange(r@.len() - back.len(), r@.len() as int) == back
        }),
{
    let clock = two_digits(n as nat / 60) + ":"@ + two_digits(n as nat % 60);
    let front = "    {\"step_id\":"@ + decimal(n as nat) + ",\"timestamp\":\"2026-09-10T00:"@
        + clock + "Z\",\"source\":\"agent\",\"message\":\""@;
    let message = repeated_text("step output "@, step_bytes as nat / 96);
    let back = "\"}}],\"metrics\":{\"input_tokens\":"@ + decimal(turn.input as nat)
        + ",\"output_tokens\":"@ + decimal(turn.output as nat) + "}}"@;
    let mid = "\",\"reasoning_content\":\""@ + turn.reasoning@
        + "\",\"tool_calls\":[{\"name\":\"bash\",\"arguments\":{\"command\":\""@ + decimal(
        turn.command as nat,
    );
    assert(r@ =~= front + message + mid + back);
    assert(r@.subrange(0, front.len() as int) =~= front);
    assert(r@.subrange(front.len() as int, front.len() as int + message.len()) =~= message);
    assert(r@.subrange(front.len() as int + message.len(), r@.len() - back.len()) =~= mid);
    assert(r@.subrange(r@.len() - back.len(), r@.len() as int) =~= back);
}

/// A trajectory tells all of its steps, in order and with a comma and a line break between
/// them, how many they are, and 1234 tokens for each.
pub proof fn law_document_tells_all_steps(
    steps: &Vec<String>,
    doc: String,
    more: Seq<String>,
    next: String,
)
    requires
        steps@.len() * 1234 <= u64::MAX,
        call_ensures(document, (steps,), doc),
        more.len() > 0,
    ensures
        ({
            let close = "\n  ],\n  \"final_metrics\":{\"steps\":"@ + decimal(steps@.len())
                + ",\"total_tokens\":"@ + decimal(1234 * steps@.len()) + "}\n}\n"@;
            let text = steps_text(steps@);
            let open = doc@.len() - close.len() - text.len();
            &&& open >= 0
            &&& doc@.subrange(open, open + text.len()) == text
            &&& doc@.subrange(doc@.len() - close.len(), doc@.len() as int) == close
        }),
        steps_text(more.push(next)) == steps_text(more) + ",\n"@ + next@,
        steps_text(seq![next]) == next@,
        steps_text(Seq::empty()).len() == 0,
{
    let close = "\n  ],\n  \"final_metrics\":{\"steps\":"@ + decimal(steps@.len())
        + ",\"total_tokens\":"@ + decimal(1234 * steps@.len()) + "}\n}\n"@;
    let text = steps_text(steps@);
    let open = doc@.len() - close.len() - text.len();
    assert(doc@.subrange(open, open + text.len()) =~= text);
    assert(doc@.subrange(doc@.len() - close.len(), doc@.len() as int) =~= close);
    assert(more.push(next).drop_last() =~= more);
}

/// A trajectory is written anew after every turn, with the steps of all turns so far; the step
/// of a turn is the same in every version that has it.
pub proof fn law_trajectory_keeps_its_steps(turns: usize, step_bytes: usize, r: Vec<String>)
    requires
        call_ensures(atif_series, (turns, step_bytes), r),
    ensures
        r@.len() == turns,
        exists|steps: Seq<String>|
            #![trigger steps.len()]
            steps.len() == turns && forall|i: int|
                0 <= i < turns ==> (#[trigger] r@[i])@ == document_of(steps.subrange(0, i + 1)),
{
    let (steps, drawn) = choose|steps: Seq<String>, drawn: Seq<Turn>| #[trigger]
        is_trajectory(r@, steps, drawn, step_bytes as nat);
    assert(steps.len() == turns);
    assert forall|i: int| 0 <= i < turns implies (#[trigger] r@[i])@ == document_of(
        steps.subrange(0, i + 1),
    ) by {
        assert(is_version(r@[i], steps, drawn, step_bytes as nat, i));
    }
}

/// What is drawn for a turn is asked for in this order: a letter for each character of the
/// reasoning, and the three numbers behind them, each between its own bounds.
pub proof fn law_turn_is_drawn_in_order(s: Stream, n: nat, t: Turn)
    ensures
        after_turn(s, n).seed == s.seed,
        after_turn(s, n).asked == s.asked + Seq::new(n, |i: int| (8nat, 0nat, 26nat)) + seq![
            (32nat, 1000nat, 9999nat),
            (32nat, 100nat, 900nat),
            (32nat, 50nat, 500nat),
        ],
        letters(s, n).0.len() == n,
        is_drawn(t, s, n) ==> {
            let asked = s.asked + Seq::new(n, |i: int| (8nat, 0nat, 26nat));
            &&& t.reasoning@.len() == n
            &&& t.command == number_drawn(s.seed, asked, 32, 1000, 9999)
            &&& t.input == number_drawn(s.seed, asked.push((32, 1000, 9999)), 32, 100, 900)
            &&& t.output == number_drawn(
                s.seed,
                asked.push((32, 1000, 9999)).push((32, 100, 900)),
                32,
                50,
                500,
            )
        },
{
    lemma_letters(s, n);
    assert(after_turn(s, n).asked =~= s.asked + Seq::new(n, |i: int| (8nat, 0nat, 26nat)) + seq![
        (32nat, 1000nat, 9999nat),
        (32nat, 100nat, 900nat),
        (32nat, 50nat, 500nat),
    ]);
}

proof fn lemma_letters(s: Stream, n: nat)
    ensures
        letters(s, n).0.len() == n,
        letters(s, n).1.seed == s.seed,
        letters(s, n).1.asked == s.asked + Seq::new(n, |i: int| (8nat, 0nat, 26nat)),
    decreases n,
{
    if n > 0 {
        lemma_letters(s, (n - 1) as nat);
    }
    assert(letters(s, n).1.asked =~= s.asked + Seq::new(n, |i: int| (8nat, 0nat, 26nat)));
}

/// Letter `i` of a reasoning is the letter of the alphabet with the number that is drawn for
/// it, and more letters leave those before them as they are.
pub proof fn law_letters_are_drawn_one_by_one(s: Stream, n: nat)
    ensures
        letters(s, n + 1).0.drop_last() == letters(s, n).0,
        letters(s, n + 1).0.last() == "abcdefghijklmnopqrstuvwxyz"@[number_drawn(
            s.seed,
            s.asked + Seq::new(n, |i: int| (8nat, 0nat, 26nat)),
            8,
            0,
            26,
        ) as int],
{
    lemma_letters(s, n);
    assert(letters(s, n + 1).0.drop_last() =~= letters(s, n).0);
}

/// A table takes what is appended and edited as it is drawn, each row under its number, and
/// every other row stays as it is.
pub proof fn law_table_takes_what_is_drawn(draw: &Draw, at: usize, table: &Table, text: String)
    requires
        call_ensures(Table::text, (table,), text),
    ensures
        text@ == rows_text(table@),
        forall|t: &mut Table, r: ()| #[trigger]
            call_ensures(Table::append, (t, draw), r) && (*t).well_formed() ==> {
                &&& (*final(t))@.len() == (*t)@.len() + 1
                &&& (*final(t))@.drop_last() == (*t)@
                &&& (*final(t))@.last() == csv_row_of(
                    (*t)@.len(),
                    draw.amount as nat,
                    draw.score@,
                    draw.flag,
                )
            },
        forall|t: &mut Table, r: ()| #[trigger]
            call_ensures(Table::edit, (t, at, draw), r) && (*t).well_formed() && at < (*t)@.len()
                ==> {
                &&& (*final(t))@.len() == (*t)@.len()
                &&& (*final(t))@[at as int] == csv_row_of(
                    at as nat,
                    draw.amount as nat,
                    draw.score@,
                    draw.flag,
                )
                &&& forall|i: int|
                    0 <= i < (*t)@.len() && i != at ==> #[trigger] (*final(t))@[i] == (*t)@[i]
            },
{
    assert forall|t: &mut Table, r: ()| #[trigger]
        call_ensures(Table::append, (t, draw), r) && (*t).well_formed() implies {
        &&& (*final(t))@.len() == (*t)@.len() + 1
        &&& (*final(t))@.drop_last() == (*t)@
        &&& (*final(t))@.last() == csv_row_of(
            (*t)@.len(),
            draw.amount as nat,
            draw.score@,
            draw.flag,
        )
    } by {
        assert((*final(t))@.drop_last() =~= (*t)@);
    }
}

/// An amount is drawn from 1000 to below 99999, and a row to edit from those that are there.
pub proof fn law_draws_stay_within_bounds(rows: usize)
    ensures
        forall|g: &mut Generator, v: u32| #[trigger]
            call_ensures(draw_amount, (g,), v) ==> 1000 <= v < 99999 && ((*g)@ matches Some(s)
                ==> v == number_drawn(s.seed, s.asked, 32, 1000, 99999)),
        forall|g: &mut Generator, at: usize| #[trigger]
            call_ensures(pick, (g, rows), at) && rows > 0 ==> at < rows && ((*g)@ matches Some(s)
                ==> at == number_drawn(s.seed, s.asked, usize::BITS as nat, 0, rows as nat)),
{
}

/// Every trajectory is drawn from one seed, turn after turn, each where the one before stopped;
/// its reasoning has an eighth of the bytes that a step is to have.
pub proof fn law_trajectory_is_drawn_from_one_seed(
    turns: usize,
    step_bytes: usize,
    r: Vec<String>,
)
    requires
        call_ensures(atif_series, (turns, step_bytes), r),
    ensures
        exists|steps: Seq<String>, drawn: Seq<Turn>| #[trigger]
            is_trajectory(r@, steps, drawn, step_bytes as nat) && forall|i: int|
                0 <= i < turns ==> is_drawn(
                    #[trigger] drawn[i],
                    after_turns(
                        Stream { seed: 31337, asked: Seq::empty() },
                        step_bytes as nat / 8,
                        i as nat,
                    ),
                    step_bytes as nat / 8,
                ) && steps[i]@ == step_of((i + 1) as nat, step_bytes as nat, drawn[i]),
{
    let (steps, drawn) = choose|steps: Seq<String>, drawn: Seq<Turn>| #[trigger]
        is_trajectory(r@, steps, drawn, step_bytes as nat);
    assert forall|i: int| 0 <= i < turns implies is_drawn(
        #[trigger] drawn[i],
        after_turns(
            Stream { seed: 31337, asked: Seq::empty() },
            step_bytes as nat / 8,
            i as nat,
        ),
        step_bytes as nat / 8,
    ) && steps[i]@ == step_of((i + 1) as nat, step_bytes as nat, drawn[i]) by {
        assert(is_version(r@[i], steps, drawn, step_bytes as nat, i));
    }
}

/// What can be drawn for a turn: lower-case letters, as many as were asked for, and numbers
/// between their bounds.
pub proof fn law_turn_is_letters_and_numbers(t: Turn, n: nat)
    ensures
        is_turn(t, n) <==> {
            &&& t.reasoning@.len() == n
            &&& forall|j: int| 0 <= j < n ==> 'a' <= #[trigger] t.reasoning@[j] <= 'z'
            &&& 1000 <= t.command <= 9998
            &&& 100 <= t.input <= 899
            &&& 50 <= t.output <= 499
        },
{
}

/// Each turn is drawn where the one before it stopped, so that a generator was asked for the
/// same numbers after as many turns.
pub proof fn law_turns_follow_one_another(s: Stream, n: nat, i: nat)
    ensures
        after_turns(s, n, 0) == s,
        after_turns(s, n, i + 1) == after_turn(after_turns(s, n, i), n),
        after_turns(s, n, i).seed == s.seed,
        after_turns(s, n, i).asked.len() == s.asked.len() + i * (n + 3),
    decreases i,
{
    if i > 0 {
        law_turns_follow_one_another(s, n, (i - 1) as nat);
        let before = after_turns(s, n, (i - 1) as nat);
        lemma_letters(before, n);
        assert((i - 1) * (n + 3) + (n + 3) == i * (n + 3)) by (nonlinear_arith);
    } else {
        assert(0 * (n + 3) == 0) by (nonlinear_arith);
    }
}

} // verus!
