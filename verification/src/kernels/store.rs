//! Measured launch plans as a text file, one plan a line after a line that names the device.
use crate::kernels::fields::{
    ended, is_line, is_word, lemma_digits_are_a_word, lemma_fields_make_a_line,
    lemma_fields_round_trip, lemma_lines_round_trip, lemma_size_round_trip, lines_in, parse_size,
    size_in, space_fields, spaced, split_lines, split_words, words_in,
};
use crate::kernels::tune::{DenseKey, DeviceProfile, GroupKey, GroupPlan, Plan, Tuner, TUNE_VERSION};
use crate::sequences::texts;
use crate::text::{decimal, digits, same_text, white_space};
use vstd::prelude::*;
use vstd::string::*;

verus! {

// ---------------------------------------------------------------------------------------------
// Order
// ---------------------------------------------------------------------------------------------

/// The numbers that dense plans are ordered by.
pub open spec fn dense_rank(k: DenseKey) -> Seq<nat> {
    seq![
        k.fmt as nat,
        k.n as nat,
        k.k as nat,
        if k.row_invariant {
            1
        } else {
            0
        },
        k.bucket as nat,
    ]
}

/// The numbers that grouped plans are ordered by.
pub open spec fn group_rank(k: GroupKey) -> Seq<nat> {
    seq![k.fmt as nat, k.n as nat, k.k as nat, k.experts as nat, k.bucket as nat]
}

/// The first five numbers decide in turn, from the `i`th on.
pub open spec fn ranks_before(a: Seq<nat>, b: Seq<nat>, i: nat) -> bool
    decreases 5 - i,
{
    if i >= 5 {
        false
    } else if a[i as int] != b[i as int] {
        a[i as int] < b[i as int]
    } else {
        ranks_before(a, b, i + 1)
    }
}

pub open spec fn dense_before(a: DenseKey, b: DenseKey) -> bool {
    ranks_before(dense_rank(a), dense_rank(b), 0)
}

pub open spec fn group_before(a: GroupKey, b: GroupKey) -> bool {
    ranks_before(group_rank(a), group_rank(b), 0)
}

/// The table with a plan under its key: in the place of another under that key, else in order.
pub open spec fn dense_put(table: Seq<(DenseKey, Plan)>, key: DenseKey, plan: Plan) -> Seq<
    (DenseKey, Plan),
>
    decreases table.len(),
{
    if table.len() == 0 {
        seq![(key, plan)]
    } else if table[0].0 == key {
        seq![(key, plan)] + table.drop_first()
    } else if dense_before(key, table[0].0) {
        seq![(key, plan)] + table
    } else {
        seq![table[0]] + dense_put(table.drop_first(), key, plan)
    }
}

pub open spec fn group_put(table: Seq<(GroupKey, GroupPlan)>, key: GroupKey, plan: GroupPlan) -> Seq<
    (GroupKey, GroupPlan),
>
    decreases table.len(),
{
    if table.len() == 0 {
        seq![(key, plan)]
    } else if table[0].0 == key {
        seq![(key, plan)] + table.drop_first()
    } else if group_before(key, table[0].0) {
        seq![(key, plan)] + table
    } else {
        seq![table[0]] + group_put(table.drop_first(), key, plan)
    }
}

/// Each key is before the next: as plans are kept and stored.
pub open spec fn dense_sorted(table: Seq<(DenseKey, Plan)>) -> bool {
    forall|i: int, j: int|
        0 <= i < j < table.len() ==> dense_before((#[trigger] table[i]).0, (#[trigger] table[j]).0)
}

pub open spec fn group_sorted(table: Seq<(GroupKey, GroupPlan)>) -> bool {
    forall|i: int, j: int|
        0 <= i < j < table.len() ==> group_before((#[trigger] table[i]).0, (#[trigger] table[j]).0)
}

// ---------------------------------------------------------------------------------------------
// Entries
// ---------------------------------------------------------------------------------------------

/// The numbers of words `from..from + n`; none where one is no number.
pub open spec fn numbers_in(words: Seq<Seq<char>>, from: nat, n: nat) -> Option<Seq<usize>>
    decreases n,
{
    if n == 0 {
        Some(Seq::empty())
    } else {
        match (numbers_in(words, from, (n - 1) as nat), size_in(words[from + n - 1])) {
            (Some(list), Some(x)) => Some(list.push(x)),
            _ => None,
        }
    }
}

/// The low 32 bits of a number.
pub open spec fn low_bits(n: usize) -> u32 {
    (n as int % 0x1_0000_0000) as u32
}

/// The dense plan of a line.
pub open spec fn dense_entry(words: Seq<Seq<char>>) -> Option<(DenseKey, Plan)> {
    if words.len() == 9 && words[0] == "dense"@ {
        match numbers_in(words, 1, 8) {
            None => None,
            Some(v) => Some(
                (
                    DenseKey {
                        fmt: low_bits(v[0]),
                        n: v[1],
                        k: v[2],
                        bucket: v[3],
                        row_invariant: v[4] == 1,
                    },
                    Plan { bm: v[5], bn: v[6], splits: v[7] },
                ),
            ),
        }
    } else {
        None
    }
}

/// The grouped plan of a line.
pub open spec fn group_entry(words: Seq<Seq<char>>) -> Option<(GroupKey, GroupPlan)> {
    if words.len() == 8 && words[0] == "grouped"@ {
        match numbers_in(words, 1, 7) {
            None => None,
            Some(v) => Some(
                (
                    GroupKey {
                        fmt: low_bits(v[0]),
                        n: v[1],
                        k: v[2],
                        experts: v[3],
                        bucket: v[4],
                    },
                    GroupPlan { bm: v[5], bn: v[6] },
                ),
            ),
        }
    } else {
        None
    }
}

/// The plans of a tuner.
#[verifier::ext_equal]
pub struct Tables {
    pub dense: Seq<(DenseKey, Plan)>,
    pub grouped: Seq<(GroupKey, GroupPlan)>,
}

impl Tables {
    /// The plans are in the order of their keys, each key once.
    pub open spec fn ordered(self) -> bool {
        dense_sorted(self.dense) && group_sorted(self.grouped)
    }
}

/// The plans with that of a line, where it has one.
pub open spec fn with_line(t: Tables, line: Seq<char>) -> Tables {
    let words = words_in(line);
    match dense_entry(words) {
        Some((key, plan)) => Tables { dense: dense_put(t.dense, key, plan), ..t },
        None => match group_entry(words) {
            Some((key, plan)) => Tables { grouped: group_put(t.grouped, key, plan), ..t },
            None => t,
        },
    }
}

/// The plans with those of lines `from..n`.
pub open spec fn with_lines(t: Tables, lines: Seq<Seq<char>>, from: nat, n: nat) -> Tables
    decreases n,
{
    if n <= from {
        t
    } else {
        with_line(with_lines(t, lines, from, (n - 1) as nat), lines[n - 1])
    }
}

/// The plans after a stored text is loaded: its first line must name this device.
pub open spec fn loaded(t: Tables, header: Seq<char>, text: Seq<char>) -> Tables {
    let lines = lines_in(text);
    if lines.len() == 0 || lines[0] != header {
        t
    } else {
        with_lines(t, lines, 1, lines.len())
    }
}

/// The fields of a dense plan's line.
pub open spec fn dense_fields(e: (DenseKey, Plan)) -> Seq<Seq<char>> {
    seq![
        "dense"@,
        digits(e.0.fmt as nat),
        digits(e.0.n as nat),
        digits(e.0.k as nat),
        digits(e.0.bucket as nat),
        digits(
            if e.0.row_invariant {
                1
            } else {
                0
            },
        ),
        digits(e.1.bm as nat),
        digits(e.1.bn as nat),
        digits(e.1.splits as nat),
    ]
}

/// The fields of a grouped plan's line.
pub open spec fn group_fields(e: (GroupKey, GroupPlan)) -> Seq<Seq<char>> {
    seq![
        "grouped"@,
        digits(e.0.fmt as nat),
        digits(e.0.n as nat),
        digits(e.0.k as nat),
        digits(e.0.experts as nat),
        digits(e.0.bucket as nat),
        digits(e.1.bm as nat),
        digits(e.1.bn as nat),
    ]
}

/// The lines of a tuner's plans after the line of its device.
pub open spec fn stored_lines(header: Seq<char>, t: Tables) -> Seq<Seq<char>> {
    seq![header] + Seq::new(t.dense.len(), |i: int| spaced(dense_fields(t.dense[i]), 0))
        + Seq::new(t.grouped.len(), |i: int| spaced(group_fields(t.grouped[i]), 0))
}

/// The text of a tuner's plans.
pub open spec fn stored_text(header: Seq<char>, t: Tables) -> Seq<char> {
    ended(stored_lines(header, t), 0)
}

impl Tuner {
    /// Its plans.
    pub open spec fn tables(self) -> Tables {
        Tables { dense: self.dense@, grouped: self.grouped@ }
    }

    /// Its plans are in the order of their keys, each key once.
    pub open spec fn ordered(self) -> bool {
        self.tables().ordered()
    }
}

// ---------------------------------------------------------------------------------------------
// Saving
// ---------------------------------------------------------------------------------------------

fn dense_line(key: &DenseKey, plan: &Plan) -> (r: String)
    ensures
        r@ == spaced(dense_fields((*key, *plan)), 0),
{
    let mut fields: Vec<String> = Vec::new();
    fields.push("dense".to_owned());
    fields.push(decimal(key.fmt as u64));
    fields.push(decimal(key.n as u64));
    fields.push(decimal(key.k as u64));
    fields.push(decimal(key.bucket as u64));
    fields.push(
        decimal(
            if key.row_invariant {
                1
            } else {
                0
            },
        ),
    );
    fields.push(decimal(plan.bm as u64));
    fields.push(decimal(plan.bn as u64));
    fields.push(decimal(plan.splits as u64));
    assert(texts(fields@) =~= dense_fields((*key, *plan)));
    space_fields(&fields)
}

fn group_line(key: &GroupKey, plan: &GroupPlan) -> (r: String)
    ensures
        r@ == spaced(group_fields((*key, *plan)), 0),
{
    let mut fields: Vec<String> = Vec::new();
    fields.push("grouped".to_owned());
    fields.push(decimal(key.fmt as u64));
    fields.push(decimal(key.n as u64));
    fields.push(decimal(key.k as u64));
    fields.push(decimal(key.experts as u64));
    fields.push(decimal(key.bucket as u64));
    fields.push(decimal(plan.bm as u64));
    fields.push(decimal(plan.bn as u64));
    assert(texts(fields@) =~= group_fields((*key, *plan)));
    space_fields(&fields)
}

fn push_line(list: &mut Vec<String>, line: String)
    ensures
        texts(final(list)@) == texts(old(list)@).push(line@),
{
    let ghost before = list@;
    let ghost model = line@;
    list.push(line);
    assert(texts(list@) =~= texts(before).push(model));
}

fn end_lines(lines: &Vec<String>) -> (r: String)
    ensures
        r@ == ended(texts(lines@), 0),
{
    let ghost all = texts(lines@);
    let mut i: usize = lines.len();
    proof {
        reveal_strlit("");
        assert(""@ =~= Seq::<char>::empty());
    }
    let mut out: String = "".to_owned();
    while i > 0
        invariant
            i <= lines@.len(),
            all == texts(lines@),
            out@ == ended(all, i as nat),
        decreases i,
    {
        i -= 1;
        assert(all[i as int] == lines@[i as int]@);
        proof {
            reveal_strlit("\n");
            assert("\n"@ =~= seq!['\n']);
        }
        out = lines[i].as_str().to_owned().concat("\n").concat(out.as_str());
        assert(out@ =~= all[i as int] + seq!['\n'] + ended(all, (i + 1) as nat));
    }
    out
}

impl Tuner {
    /// The text to store.
    pub fn save(&self) -> (r: String)
        ensures
            r@ == stored_text(self.profile.header(), self.tables()),
    {
        let ghost want = stored_lines(self.profile.header(), self.tables());
        let mut lines: Vec<String> = Vec::new();
        push_line(&mut lines, self.profile.key());
        let mut i: usize = 0;
        assert(texts(lines@) =~= want.take(1));
        while i < self.dense.len()
            invariant
                i <= self.dense@.len(),
                want == stored_lines(self.profile.header(), self.tables()),
                texts(lines@) == want.take(1 + i),
            decreases self.dense@.len() - i,
        {
            push_line(&mut lines, dense_line(&self.dense[i].0, &self.dense[i].1));
            assert(want[1 + i] == spaced(dense_fields(self.dense@[i as int]), 0));
            assert(want.take(2 + i) =~= want.take(1 + i).push(want[1 + i]));
            i += 1;
        }
        let ghost d = self.dense@.len();
        let mut j: usize = 0;
        while j < self.grouped.len()
            invariant
                j <= self.grouped@.len(),
                d == self.dense@.len(),
                want == stored_lines(self.profile.header(), self.tables()),
                texts(lines@) == want.take(1 + d + j),
            decreases self.grouped@.len() - j,
        {
            push_line(&mut lines, group_line(&self.grouped[j].0, &self.grouped[j].1));
            let ghost at = (1 + d + j) as int;
            assert(want[at] == spaced(group_fields(self.grouped@[j as int]), 0));
            assert(want.take(at + 1) =~= want.take(at).push(want[at]));
            j += 1;
        }
        assert(want.take((1 + d + j) as int) =~= want);
        end_lines(&lines)
    }
}

// ---------------------------------------------------------------------------------------------
// Loading
// ---------------------------------------------------------------------------------------------

fn number_before(a: u64, b: u64, rest: bool) -> (r: bool)
    ensures
        r == if a != b {
            a < b
        } else {
            rest
        },
{
    if a != b {
        a < b
    } else {
        rest
    }
}

fn is_dense_before(a: &DenseKey, b: &DenseKey) -> (r: bool)
    ensures
        r == dense_before(*a, *b),
{
    proof {
        reveal_with_fuel(ranks_before, 6);
    }
    let (x, y): (u64, u64) = (
        if a.row_invariant {
            1
        } else {
            0
        },
        if b.row_invariant {
            1
        } else {
            0
        },
    );
    let last: bool = number_before(a.bucket as u64, b.bucket as u64, false);
    let fourth: bool = number_before(x, y, last);
    let third: bool = number_before(a.k as u64, b.k as u64, fourth);
    let second: bool = number_before(a.n as u64, b.n as u64, third);
    number_before(a.fmt as u64, b.fmt as u64, second)
}

fn is_group_before(a: &GroupKey, b: &GroupKey) -> (r: bool)
    ensures
        r == group_before(*a, *b),
{
    proof {
        reveal_with_fuel(ranks_before, 6);
    }
    let last: bool = number_before(a.bucket as u64, b.bucket as u64, false);
    let fourth: bool = number_before(a.experts as u64, b.experts as u64, last);
    let third: bool = number_before(a.k as u64, b.k as u64, fourth);
    let second: bool = number_before(a.n as u64, b.n as u64, third);
    number_before(a.fmt as u64, b.fmt as u64, second)
}

fn read_numbers(words: &Vec<String>, count: usize) -> (r: Option<Vec<usize>>)
    requires
        words@.len() == count + 1,
    ensures
        r matches Some(list) ==> numbers_in(texts(words@), 1, count as nat) == Some(list@)
            && list@.len() == count,
        r is None ==> numbers_in(texts(words@), 1, count as nat) is None,
{
    let ghost all = texts(words@);
    let mut list: Vec<usize> = Vec::new();
    let mut i: usize = 0;
    while i < count
        invariant
            i <= count,
            words@.len() == count + 1,
            all == texts(words@),
            list@.len() == i,
            numbers_in(all, 1, i as nat) == Some(list@),
        decreases count - i,
    {
        assert(all[i + 1] == words@[i + 1]@);
        match parse_size(words[i + 1].as_str()) {
            Some(n) => list.push(n),
            None => {
                proof {
                    lemma_numbers_fail(all, (i + 1) as nat, count as nat);
                }
                return None;
            },
        }
        i += 1;
    }
    Some(list)
}

proof fn lemma_numbers_fail(words: Seq<Seq<char>>, i: nat, n: nat)
    requires
        i <= n,
        numbers_in(words, 1, i) is None,
    ensures
        numbers_in(words, 1, n) is None,
    decreases n - i,
{
    if i < n {
        lemma_numbers_fail(words, i, (n - 1) as nat);
    }
}

fn low(n: usize) -> (r: u32)
    ensures
        r == low_bits(n),
{
    (n as u64 % 0x1_0000_0000) as u32
}

fn put_dense(table: &mut Vec<(DenseKey, Plan)>, key: DenseKey, plan: Plan)
    ensures
        final(table)@ == dense_put(old(table)@, key, plan),
{
    let ghost all = table@;
    let mut i: usize = 0;
    assert(all.take(0) + dense_put(all.skip(0), key, plan) =~= dense_put(all, key, plan)) by {
        assert(all.skip(0) =~= all);
    }
    while i < table.len() && table[i].0 != key && !is_dense_before(&key, &table[i].0)
        invariant
            i <= table@.len(),
            table@ == all,
            all.take(i as int) + dense_put(all.skip(i as int), key, plan) == dense_put(
                all,
                key,
                plan,
            ),
        decreases table@.len() - i,
    {
        proof {
            let rest = all.skip(i as int);
            assert(rest[0] == all[i as int]);
            assert(rest.drop_first() =~= all.skip(i + 1));
            let tail = dense_put(all.skip(i + 1), key, plan);
            assert(all.take(i + 1) =~= all.take(i as int).push(all[i as int]));
            assert(all.take(i as int) + (seq![all[i as int]] + tail) =~= all.take(i + 1) + tail);
        }
        i += 1;
    }
    if i < table.len() {
        proof {
            let rest = all.skip(i as int);
            assert(rest[0] == all[i as int]);
            assert(rest.drop_first() =~= all.skip(i + 1));
        }
        if table[i].0 == key {
            table.set(i, (key, plan));
            assert(table@ =~= all.take(i as int) + (seq![(key, plan)] + all.skip(i + 1)));
        } else {
            table.insert(i, (key, plan));
            assert(table@ =~= all.take(i as int) + (seq![(key, plan)] + all.skip(i as int)));
        }
    } else {
        assert(all.skip(i as int).len() == 0);
        table.push((key, plan));
        assert(table@ =~= all.take(i as int) + seq![(key, plan)]);
    }
}

fn put_group(table: &mut Vec<(GroupKey, GroupPlan)>, key: GroupKey, plan: GroupPlan)
    ensures
        final(table)@ == group_put(old(table)@, key, plan),
{
    let ghost all = table@;
    let mut i: usize = 0;
    assert(all.take(0) + group_put(all.skip(0), key, plan) =~= group_put(all, key, plan)) by {
        assert(all.skip(0) =~= all);
    }
    while i < table.len() && table[i].0 != key && !is_group_before(&key, &table[i].0)
        invariant
            i <= table@.len(),
            table@ == all,
            all.take(i as int) + group_put(all.skip(i as int), key, plan) == group_put(
                all,
                key,
                plan,
            ),
        decreases table@.len() - i,
    {
        proof {
            let rest = all.skip(i as int);
            assert(rest[0] == all[i as int]);
            assert(rest.drop_first() =~= all.skip(i + 1));
            let tail = group_put(all.skip(i + 1), key, plan);
            assert(all.take(i + 1) =~= all.take(i as int).push(all[i as int]));
            assert(all.take(i as int) + (seq![all[i as int]] + tail) =~= all.take(i + 1) + tail);
        }
        i += 1;
    }
    if i < table.len() {
        proof {
            let rest = all.skip(i as int);
            assert(rest[0] == all[i as int]);
            assert(rest.drop_first() =~= all.skip(i + 1));
        }
        if table[i].0 == key {
            table.set(i, (key, plan));
            assert(table@ =~= all.take(i as int) + (seq![(key, plan)] + all.skip(i + 1)));
        } else {
            table.insert(i, (key, plan));
            assert(table@ =~= all.take(i as int) + (seq![(key, plan)] + all.skip(i as int)));
        }
    } else {
        assert(all.skip(i as int).len() == 0);
        table.push((key, plan));
        assert(table@ =~= all.take(i as int) + seq![(key, plan)]);
    }
}

impl Tuner {
    /// Keeps a measured plan.
    pub fn insert_dense(&mut self, key: DenseKey, plan: Plan)
        ensures
            final(self).dense@ == dense_put(old(self).dense@, key, plan),
            final(self).grouped == old(self).grouped,
            final(self).profile == old(self).profile,
            final(self).path == old(self).path,
            old(self).ordered() ==> final(self).ordered(),
    {
        proof {
            if self.ordered() {
                law_dense_tables_stay_in_order(self.dense@, key, plan);
            }
        }
        put_dense(&mut self.dense, key, plan);
    }

    /// Keeps a measured plan.
    pub fn insert_grouped(&mut self, key: GroupKey, plan: GroupPlan)
        ensures
            final(self).grouped@ == group_put(old(self).grouped@, key, plan),
            final(self).dense == old(self).dense,
            final(self).profile == old(self).profile,
            final(self).path == old(self).path,
            old(self).ordered() ==> final(self).ordered(),
    {
        proof {
            if self.ordered() {
                law_group_tables_stay_in_order(self.grouped@, key, plan);
            }
        }
        put_group(&mut self.grouped, key, plan);
    }

    fn load_line(&mut self, line: &str)
        ensures
            final(self).tables() == with_line(old(self).tables(), line@),
            final(self).profile == old(self).profile,
            final(self).path == old(self).path,
    {
        let words: Vec<String> = split_words(line);
        let ghost all = words_in(line@);
        if words.len() == 9 {
            assert(all[0] == words@[0]@);
            if same_text(words[0].as_str(), "dense") {
                match read_numbers(&words, 8) {
                    Some(v) => {
                        let key: DenseKey = DenseKey {
                            fmt: low(v[0]),
                            n: v[1],
                            k: v[2],
                            bucket: v[3],
                            row_invariant: v[4] == 1,
                        };
                        self.insert_dense(key, Plan { bm: v[5], bn: v[6], splits: v[7] });
                    },
                    None => {},
                }
            }
        } else if words.len() == 8 {
            assert(all[0] == words@[0]@);
            if same_text(words[0].as_str(), "grouped") {
                match read_numbers(&words, 7) {
                    Some(v) => {
                        let key: GroupKey = GroupKey {
                            fmt: low(v[0]),
                            n: v[1],
                            k: v[2],
                            experts: v[3],
                            bucket: v[4],
                        };
                        self.insert_grouped(key, GroupPlan { bm: v[5], bn: v[6] });
                    },
                    None => {},
                }
            }
        }
    }

    /// Loads stored plans: nothing of a text for another device, and nothing of a line that is
    /// not a plan.
    pub fn load(&mut self, text: &str)
        ensures
            final(self).tables() == loaded(old(self).tables(), old(self).profile.header(), text@),
            final(self).profile == old(self).profile,
            final(self).path == old(self).path,
            old(self).ordered() ==> final(self).ordered(),
    {
        proof {
            if self.ordered() {
                law_loading_keeps_the_order(self.tables(), self.profile.header(), text@);
            }
        }
        let lines: Vec<String> = split_lines(text);
        let ghost all = lines_in(text@);
        let ghost before = self.tables();
        if lines.len() == 0 {
            return ;
        }
        assert(all[0] == lines@[0]@);
        let header: String = self.profile.key();
        if !same_text(lines[0].as_str(), header.as_str()) {
            return ;
        }
        let mut i: usize = 1;
        while i < lines.len()
            invariant
                1 <= i <= lines@.len(),
                all == texts(lines@),
                self.tables() == with_lines(before, all, 1, i as nat),
                self.profile == old(self).profile,
                self.path == old(self).path,
            decreases lines@.len() - i,
        {
            assert(all[i as int] == lines@[i as int]@);
            self.load_line(lines[i].as_str());
            i += 1;
        }
    }
}

// ---------------------------------------------------------------------------------------------
// Laws
// ---------------------------------------------------------------------------------------------

proof fn lemma_rank_order(a: Seq<nat>, b: Seq<nat>, i: nat)
    requires
        ranks_before(a, b, i),
    ensures
        !ranks_before(b, a, i),
        a != b,
    decreases 5 - i,
{
    if i < 5 && a[i as int] == b[i as int] {
        lemma_rank_order(a, b, i + 1);
    }
}

/// A plan after all others goes to the end.
proof fn lemma_dense_put_last(table: Seq<(DenseKey, Plan)>, key: DenseKey, plan: Plan)
    requires
        forall|i: int| 0 <= i < table.len() ==> dense_before((#[trigger] table[i]).0, key),
    ensures
        dense_put(table, key, plan) == table.push((key, plan)),
    decreases table.len(),
{
    if table.len() > 0 {
        assert(dense_before(table[0].0, key));
        lemma_rank_order(dense_rank(table[0].0), dense_rank(key), 0);
        let rest = table.drop_first();
        assert forall|i: int| 0 <= i < rest.len() implies dense_before(
            (#[trigger] rest[i]).0,
            key,
        ) by {
            assert(rest[i] == table[i + 1]);
        }
        lemma_dense_put_last(rest, key, plan);
        assert(seq![table[0]] + rest.push((key, plan)) =~= table.push((key, plan)));
    } else {
        assert(seq![(key, plan)] =~= table.push((key, plan)));
    }
}

proof fn lemma_group_put_last(table: Seq<(GroupKey, GroupPlan)>, key: GroupKey, plan: GroupPlan)
    requires
        forall|i: int| 0 <= i < table.len() ==> group_before((#[trigger] table[i]).0, key),
    ensures
        group_put(table, key, plan) == table.push((key, plan)),
    decreases table.len(),
{
    if table.len() > 0 {
        assert(group_before(table[0].0, key));
        lemma_rank_order(group_rank(table[0].0), group_rank(key), 0);
        let rest = table.drop_first();
        assert forall|i: int| 0 <= i < rest.len() implies group_before(
            (#[trigger] rest[i]).0,
            key,
        ) by {
            assert(rest[i] == table[i + 1]);
        }
        lemma_group_put_last(rest, key, plan);
        assert(seq![table[0]] + rest.push((key, plan)) =~= table.push((key, plan)));
    } else {
        assert(seq![(key, plan)] =~= table.push((key, plan)));
    }
}

proof fn lemma_dense_line(e: (DenseKey, Plan))
    ensures
        is_line(spaced(dense_fields(e), 0)),
        dense_entry(words_in(spaced(dense_fields(e), 0))) == Some(e),
{
    let f = dense_fields(e);
    reveal_strlit("dense");
    assert(is_word("dense"@));
    lemma_digits_are_a_word(e.0.fmt as nat);
    lemma_digits_are_a_word(e.0.n as nat);
    lemma_digits_are_a_word(e.0.k as nat);
    lemma_digits_are_a_word(e.0.bucket as nat);
    lemma_digits_are_a_word(0);
    lemma_digits_are_a_word(1);
    lemma_digits_are_a_word(e.1.bm as nat);
    lemma_digits_are_a_word(e.1.bn as nat);
    lemma_digits_are_a_word(e.1.splits as nat);
    assert forall|k: int| 0 <= k < f.len() implies is_word(#[trigger] f[k]) by {}
    lemma_fields_make_a_line(f, 0);
    lemma_fields_round_trip(f, 0);
    assert(f.skip(0) =~= f);
    lemma_size_round_trip(e.0.fmt as usize);
    lemma_size_round_trip(e.0.n);
    lemma_size_round_trip(e.0.k);
    lemma_size_round_trip(e.0.bucket);
    lemma_size_round_trip(0);
    lemma_size_round_trip(1);
    lemma_size_round_trip(e.1.bm);
    lemma_size_round_trip(e.1.bn);
    lemma_size_round_trip(e.1.splits);
    reveal_with_fuel(numbers_in, 9);
    let flag: usize = if e.0.row_invariant {
        1
    } else {
        0
    };
    let v = seq![
        e.0.fmt as usize,
        e.0.n,
        e.0.k,
        e.0.bucket,
        flag,
        e.1.bm,
        e.1.bn,
        e.1.splits,
    ];
    assert(numbers_in(f, 1, 8) is Some);
    assert(numbers_in(f, 1, 8)->Some_0 =~= v);
}

proof fn lemma_group_line(e: (GroupKey, GroupPlan))
    ensures
        is_line(spaced(group_fields(e), 0)),
        dense_entry(words_in(spaced(group_fields(e), 0))) is None,
        group_entry(words_in(spaced(group_fields(e), 0))) == Some(e),
{
    let f = group_fields(e);
    reveal_strlit("grouped");
    assert(is_word("grouped"@));
    lemma_digits_are_a_word(e.0.fmt as nat);
    lemma_digits_are_a_word(e.0.n as nat);
    lemma_digits_are_a_word(e.0.k as nat);
    lemma_digits_are_a_word(e.0.experts as nat);
    lemma_digits_are_a_word(e.0.bucket as nat);
    lemma_digits_are_a_word(e.1.bm as nat);
    lemma_digits_are_a_word(e.1.bn as nat);
    assert forall|k: int| 0 <= k < f.len() implies is_word(#[trigger] f[k]) by {}
    lemma_fields_make_a_line(f, 0);
    lemma_fields_round_trip(f, 0);
    assert(f.skip(0) =~= f);
    lemma_size_round_trip(e.0.fmt as usize);
    lemma_size_round_trip(e.0.n);
    lemma_size_round_trip(e.0.k);
    lemma_size_round_trip(e.0.experts);
    lemma_size_round_trip(e.0.bucket);
    lemma_size_round_trip(e.1.bm);
    lemma_size_round_trip(e.1.bn);
    reveal_with_fuel(numbers_in, 8);
    let v = seq![
        e.0.fmt as usize,
        e.0.n,
        e.0.k,
        e.0.experts,
        e.0.bucket,
        e.1.bm,
        e.1.bn,
    ];
    assert(numbers_in(f, 1, 7) is Some);
    assert(numbers_in(f, 1, 7)->Some_0 =~= v);
}

/// A text followed by the digits of a number is a word where the text is one.
proof fn lemma_named_number(name: Seq<char>, n: nat)
    requires
        is_word(name),
    ensures
        is_word(name + digits(n)),
{
    lemma_digits_are_a_word(n);
    let s = name + digits(n);
    assert forall|i: int| 0 <= i < s.len() implies !white_space(#[trigger] s[i]) by {
        if i < name.len() {
            assert(s[i] == name[i]);
        } else {
            assert(s[i] == digits(n)[i - name.len()]);
        }
    }
}

/// The names of a device's properties are words.
pub proof fn lemma_property_names()
    ensures
        is_word("v"@),
        is_word("device="@),
        is_word("cus="@),
        is_word("plane="@),
        is_word("lds="@),
        is_word("page="@),
        is_word("load="@),
{
    reveal_strlit("v");
    reveal_strlit("device=");
    reveal_strlit("cus=");
    reveal_strlit("plane=");
    reveal_strlit("lds=");
    reveal_strlit("page=");
    reveal_strlit("load=");
}

/// A device is named by a line of words, one for each property.
pub proof fn lemma_header_is_a_line(p: DeviceProfile)
    ensures
        is_line(p.header()),
        words_in(p.header()) == p.properties(),
{
    lemma_property_names();
    lemma_named_number("v"@, TUNE_VERSION as nat);
    lemma_named_number("device="@, p.device as nat);
    lemma_named_number("cus="@, p.compute_units as nat);
    lemma_named_number("plane="@, p.plane_size as nat);
    lemma_named_number("lds="@, p.shared_memory as nat);
    lemma_named_number("page="@, p.max_allocation as nat);
    lemma_named_number("load="@, p.load_width as nat);
    let f = p.properties();
    assert forall|k: int| 0 <= k < f.len() implies is_word(#[trigger] f[k]) by {}
    lemma_fields_make_a_line(f, 0);
    lemma_fields_round_trip(f, 0);
    assert(f.skip(0) =~= f);
}

proof fn lemma_dense_loads(header: Seq<char>, t: Tables, n: nat)
    requires
        dense_sorted(t.dense),
        n <= t.dense.len(),
    ensures
        with_lines(
            Tables { dense: Seq::empty(), grouped: Seq::empty() },
            stored_lines(header, t),
            1,
            1 + n,
        ) == (Tables { dense: t.dense.take(n as int), grouped: Seq::empty() }),
    decreases n,
{
    let none = Tables { dense: Seq::empty(), grouped: Seq::empty() };
    let lines = stored_lines(header, t);
    if n > 0 {
        lemma_dense_loads(header, t, (n - 1) as nat);
        let e = t.dense[n - 1];
        assert(lines[n as int] == spaced(dense_fields(e), 0));
        lemma_dense_line(e);
        let before = t.dense.take(n - 1);
        assert forall|i: int| 0 <= i < before.len() implies dense_before(
            (#[trigger] before[i]).0,
            e.0,
        ) by {
            assert(before[i] == t.dense[i]);
        }
        lemma_dense_put_last(before, e.0, e.1);
        assert(t.dense.take(n as int) =~= before.push(e));
    } else {
        assert(t.dense.take(0) =~= Seq::empty());
    }
}

proof fn lemma_group_loads(header: Seq<char>, t: Tables, n: nat)
    requires
        dense_sorted(t.dense),
        group_sorted(t.grouped),
        n <= t.grouped.len(),
    ensures
        with_lines(
            Tables { dense: Seq::empty(), grouped: Seq::empty() },
            stored_lines(header, t),
            1,
            1 + t.dense.len() + n,
        ) == (Tables { dense: t.dense, grouped: t.grouped.take(n as int) }),
    decreases n,
{
    let lines = stored_lines(header, t);
    let d = t.dense.len();
    if n > 0 {
        lemma_group_loads(header, t, (n - 1) as nat);
        let e = t.grouped[n - 1];
        assert(lines[(d + n) as int] == spaced(group_fields(e), 0));
        lemma_group_line(e);
        let before = t.grouped.take(n - 1);
        assert forall|i: int| 0 <= i < before.len() implies group_before(
            (#[trigger] before[i]).0,
            e.0,
        ) by {
            assert(before[i] == t.grouped[i]);
        }
        lemma_group_put_last(before, e.0, e.1);
        assert(t.grouped.take(n as int) =~= before.push(e));
    } else {
        lemma_dense_loads(header, t, d);
        assert(t.dense.take(d as int) =~= t.dense);
        assert(t.grouped.take(0) =~= Seq::empty());
    }
}

/// Stored plans are reused: loading what was saved for the same device gives the plans back.
pub proof fn law_saved_plans_are_loaded_again(profile: DeviceProfile, t: Tables)
    requires
        dense_sorted(t.dense),
        group_sorted(t.grouped),
    ensures
        loaded(
            Tables { dense: Seq::empty(), grouped: Seq::empty() },
            profile.header(),
            stored_text(profile.header(), t),
        ) == t,
{
    let header = profile.header();
    let lines = stored_lines(header, t);
    lemma_header_is_a_line(profile);
    assert forall|k: int| 0 <= k < lines.len() implies is_line(#[trigger] lines[k]) by {
        if 1 <= k <= t.dense.len() {
            lemma_dense_line(t.dense[k - 1]);
        } else if k > t.dense.len() {
            lemma_group_line(t.grouped[k - 1 - t.dense.len()]);
        }
    }
    lemma_lines_round_trip(lines, 0);
    assert(lines.skip(0) =~= lines);
    lemma_group_loads(header, t, t.grouped.len());
    assert(t.grouped.take(t.grouped.len() as int) =~= t.grouped);
}

/// Plans stored for another device, or by another version of the kernels, are not used.
pub proof fn law_plans_of_other_devices_are_not_used(
    t: Tables,
    other: DeviceProfile,
    header: Seq<char>,
    stored: Tables,
)
    requires
        header != other.header(),
        dense_sorted(stored.dense),
        group_sorted(stored.grouped),
    ensures
        loaded(t, header, stored_text(other.header(), stored)) == t,
{
    let lines = stored_lines(other.header(), stored);
    lemma_header_is_a_line(other);
    assert forall|k: int| 0 <= k < lines.len() implies is_line(#[trigger] lines[k]) by {
        if 1 <= k <= stored.dense.len() {
            lemma_dense_line(stored.dense[k - 1]);
        } else if k > stored.dense.len() {
            lemma_group_line(stored.grouped[k - 1 - stored.dense.len()]);
        }
    }
    lemma_lines_round_trip(lines, 0);
    assert(lines.skip(0) =~= lines);
}

proof fn lemma_ranks_transitive(a: Seq<nat>, b: Seq<nat>, c: Seq<nat>, i: nat)
    requires
        ranks_before(a, b, i),
        ranks_before(b, c, i),
    ensures
        ranks_before(a, c, i),
    decreases 5 - i,
{
    if i < 5 && a[i as int] == b[i as int] && b[i as int] == c[i as int] {
        lemma_ranks_transitive(a, b, c, i + 1);
    }
}

proof fn lemma_dense_ranks_differ(a: DenseKey, b: DenseKey)
    requires
        a != b,
        !dense_before(b, a),
    ensures
        dense_before(a, b),
{
    reveal_with_fuel(ranks_before, 6);
}

proof fn lemma_group_ranks_differ(a: GroupKey, b: GroupKey)
    requires
        a != b,
        !group_before(b, a),
    ensures
        group_before(a, b),
{
    reveal_with_fuel(ranks_before, 6);
}

proof fn lemma_dense_put_members(table: Seq<(DenseKey, Plan)>, key: DenseKey, plan: Plan)
    ensures
        forall|i: int|
            0 <= i < dense_put(table, key, plan).len() ==> (#[trigger] dense_put(table, key, plan)[i])
                == (key, plan) || table.contains(dense_put(table, key, plan)[i]),
    decreases table.len(),
{
    let after = dense_put(table, key, plan);
    if table.len() > 0 && table[0].0 != key && !dense_before(key, table[0].0) {
        let rest = table.drop_first();
        lemma_dense_put_members(rest, key, plan);
        let tail = dense_put(rest, key, plan);
        assert forall|i: int| 0 <= i < after.len() implies (#[trigger] after[i]) == (key, plan)
            || table.contains(after[i]) by {
            if i == 0 {
                assert(after[0] == table[0]);
            } else {
                assert(after[i] == tail[i - 1]);
                if tail[i - 1] != (key, plan) {
                    assert(rest.contains(tail[i - 1]));
                    let k = choose|k: int| 0 <= k < rest.len() && rest[k] == tail[i - 1];
                    assert(table[k + 1] == tail[i - 1]);
                }
            }
        }
    } else {
        assert forall|i: int| 0 <= i < after.len() implies (#[trigger] after[i]) == (key, plan)
            || table.contains(after[i]) by {
            if table.len() > 0 && i > 0 {
                if table[0].0 == key {
                    assert(after[i] == table[i]);
                } else {
                    assert(after[i] == table[i - 1]);
                }
            }
        }
    }
}

/// Keeping a plan keeps the table in order, with each key once.
pub proof fn law_dense_tables_stay_in_order(table: Seq<(DenseKey, Plan)>, key: DenseKey, plan: Plan)
    requires
        dense_sorted(table),
    ensures
        dense_sorted(dense_put(table, key, plan)),
    decreases table.len(),
{
    let after = dense_put(table, key, plan);
    if table.len() > 0 {
        let rest = table.drop_first();
        assert forall|i: int, j: int| 0 <= i < j < rest.len() implies dense_before(
            (#[trigger] rest[i]).0,
            (#[trigger] rest[j]).0,
        ) by {
            assert(rest[i] == table[i + 1] && rest[j] == table[j + 1]);
        }
        if table[0].0 == key {
            assert forall|i: int, j: int| 0 <= i < j < after.len() implies dense_before(
                (#[trigger] after[i]).0,
                (#[trigger] after[j]).0,
            ) by {
                assert(after[i].0 == table[i].0 && after[j].0 == table[j].0);
            }
        } else if dense_before(key, table[0].0) {
            assert forall|i: int, j: int| 0 <= i < j < after.len() implies dense_before(
                (#[trigger] after[i]).0,
                (#[trigger] after[j]).0,
            ) by {
                assert(after[j] == table[j - 1]);
                if i > 0 {
                    assert(after[i] == table[i - 1]);
                } else if j > 1 {
                    assert(dense_before(table[0].0, table[j - 1].0));
                    lemma_ranks_transitive(
                        dense_rank(key),
                        dense_rank(table[0].0),
                        dense_rank(table[j - 1].0),
                        0,
                    );
                }
            }
        } else {
            law_dense_tables_stay_in_order(rest, key, plan);
            lemma_dense_put_members(rest, key, plan);
            let tail = dense_put(rest, key, plan);
            lemma_dense_ranks_differ(table[0].0, key);
            assert forall|i: int, j: int| 0 <= i < j < after.len() implies dense_before(
                (#[trigger] after[i]).0,
                (#[trigger] after[j]).0,
            ) by {
                assert(after[j] == tail[j - 1]);
                if i > 0 {
                    assert(after[i] == tail[i - 1]);
                } else if tail[j - 1] != (key, plan) {
                    assert(rest.contains(tail[j - 1]));
                    let k = choose|k: int| 0 <= k < rest.len() && rest[k] == tail[j - 1];
                    assert(table[k + 1] == tail[j - 1]);
                    assert(dense_before(table[0].0, table[k + 1].0));
                }
            }
        }
    }
}

proof fn lemma_group_put_members(table: Seq<(GroupKey, GroupPlan)>, key: GroupKey, plan: GroupPlan)
    ensures
        forall|i: int|
            0 <= i < group_put(table, key, plan).len() ==> (#[trigger] group_put(table, key, plan)[i])
                == (key, plan) || table.contains(group_put(table, key, plan)[i]),
    decreases table.len(),
{
    let after = group_put(table, key, plan);
    if table.len() > 0 && table[0].0 != key && !group_before(key, table[0].0) {
        let rest = table.drop_first();
        lemma_group_put_members(rest, key, plan);
        let tail = group_put(rest, key, plan);
        assert forall|i: int| 0 <= i < after.len() implies (#[trigger] after[i]) == (key, plan)
            || table.contains(after[i]) by {
            if i == 0 {
                assert(after[0] == table[0]);
            } else {
                assert(after[i] == tail[i - 1]);
                if tail[i - 1] != (key, plan) {
                    assert(rest.contains(tail[i - 1]));
                    let k = choose|k: int| 0 <= k < rest.len() && rest[k] == tail[i - 1];
                    assert(table[k + 1] == tail[i - 1]);
                }
            }
        }
    } else {
        assert forall|i: int| 0 <= i < after.len() implies (#[trigger] after[i]) == (key, plan)
            || table.contains(after[i]) by {
            if table.len() > 0 && i > 0 {
                if table[0].0 == key {
                    assert(after[i] == table[i]);
                } else {
                    assert(after[i] == table[i - 1]);
                }
            }
        }
    }
}

/// Keeping a plan keeps the table in order, with each key once.
pub proof fn law_group_tables_stay_in_order(table: Seq<(GroupKey, GroupPlan)>, key: GroupKey, plan: GroupPlan)
    requires
        group_sorted(table),
    ensures
        group_sorted(group_put(table, key, plan)),
    decreases table.len(),
{
    let after = group_put(table, key, plan);
    if table.len() > 0 {
        let rest = table.drop_first();
        assert forall|i: int, j: int| 0 <= i < j < rest.len() implies group_before(
            (#[trigger] rest[i]).0,
            (#[trigger] rest[j]).0,
        ) by {
            assert(rest[i] == table[i + 1] && rest[j] == table[j + 1]);
        }
        if table[0].0 == key {
            assert forall|i: int, j: int| 0 <= i < j < after.len() implies group_before(
                (#[trigger] after[i]).0,
                (#[trigger] after[j]).0,
            ) by {
                assert(after[i].0 == table[i].0 && after[j].0 == table[j].0);
            }
        } else if group_before(key, table[0].0) {
            assert forall|i: int, j: int| 0 <= i < j < after.len() implies group_before(
                (#[trigger] after[i]).0,
                (#[trigger] after[j]).0,
            ) by {
                assert(after[j] == table[j - 1]);
                if i > 0 {
                    assert(after[i] == table[i - 1]);
                } else if j > 1 {
                    assert(group_before(table[0].0, table[j - 1].0));
                    lemma_ranks_transitive(
                        group_rank(key),
                        group_rank(table[0].0),
                        group_rank(table[j - 1].0),
                        0,
                    );
                }
            }
        } else {
            law_group_tables_stay_in_order(rest, key, plan);
            lemma_group_put_members(rest, key, plan);
            let tail = group_put(rest, key, plan);
            lemma_group_ranks_differ(table[0].0, key);
            assert forall|i: int, j: int| 0 <= i < j < after.len() implies group_before(
                (#[trigger] after[i]).0,
                (#[trigger] after[j]).0,
            ) by {
                assert(after[j] == tail[j - 1]);
                if i > 0 {
                    assert(after[i] == tail[i - 1]);
                } else if tail[j - 1] != (key, plan) {
                    assert(rest.contains(tail[j - 1]));
                    let k = choose|k: int| 0 <= k < rest.len() && rest[k] == tail[j - 1];
                    assert(table[k + 1] == tail[j - 1]);
                    assert(group_before(table[0].0, table[k + 1].0));
                }
            }
        }
    }
}

/// Loading any text keeps the plans in order, with each key once.
pub proof fn law_loading_keeps_the_order(t: Tables, header: Seq<char>, text: Seq<char>)
    requires
        t.ordered(),
    ensures
        loaded(t, header, text).ordered(),
{
    let lines = lines_in(text);
    lemma_lines_keep_the_order(t, lines, 1, lines.len());
}

proof fn lemma_lines_keep_the_order(t: Tables, lines: Seq<Seq<char>>, from: nat, n: nat)
    requires
        t.ordered(),
    ensures
        with_lines(t, lines, from, n).ordered(),
    decreases n,
{
    if n > from {
        let before = with_lines(t, lines, from, (n - 1) as nat);
        lemma_lines_keep_the_order(t, lines, from, (n - 1) as nat);
        let words = words_in(lines[n - 1]);
        if let Some((key, plan)) = dense_entry(words) {
            law_dense_tables_stay_in_order(before.dense, key, plan);
        } else if let Some((key, plan)) = group_entry(words) {
            law_group_tables_stay_in_order(before.grouped, key, plan);
        }
    }
}

} // verus!
