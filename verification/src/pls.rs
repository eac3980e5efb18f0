//! The PLS playlist format (`[playlist]`, `FileN=`, `TitleN=`, `BitrateN=`):
//! collecting the numbered entries and choosing the one to play.
use vstd::prelude::*;
use crate::text::{
    ascii_lower, all_digits, is_digit, lemma_first_index_bounds, unsigned_digits, chars_of, find_char, first_index_of, has_prefix_ci, parse_u32, parse_u32_chars, slice_chars, split,
    split_chars, starts_with_ci, string_of, trim, trim_chars,
};

verus! {

/// One numbered entry of a PLS playlist.
#[derive(Debug)]
pub struct PlsEntry {
    pub file: String,
    pub title: Option<String>,
    pub bitrate: Option<u32>,
}

pub struct PlsEntryView {
    pub file: Seq<char>,
    pub title: Option<Seq<char>>,
    pub bitrate: Option<u32>,
}

pub open spec fn opt_str(o: Option<String>) -> Option<Seq<char>> {
    match o {
        Some(s) => Some(s@),
        None => None,
    }
}

impl View for PlsEntry {
    type V = PlsEntryView;

    open spec fn view(&self) -> PlsEntryView {
        PlsEntryView { file: self.file@, title: opt_str(self.title), bitrate: self.bitrate }
    }
}

/// The views of a sequence of entries.
pub open spec fn entry_views(s: Seq<PlsEntry>) -> Seq<PlsEntryView> {
    s.map_values(|e: PlsEntry| e@)
}

/// What one trimmed line of a PLS file says.
pub enum PlsLine {
    File(u32, Seq<char>),
    Title(u32, Seq<char>),
    Bitrate(u32, u32),
    Other,
}

/// For a line `<kw><n>=<value>` (keyword in any ASCII case, `n` as
/// `str::parse::<u32>` reads it, `=` its first occurrence after the keyword),
/// the number and the raw value.
pub open spec fn keyed_value(l: Seq<char>, kw: Seq<char>) -> Option<(u32, Seq<char>)> {
    if starts_with_ci(l, kw) {
        let rest = l.skip(kw.len() as int);
        let j = first_index_of(rest, '=');
        if j >= 0 {
            match parse_u32(rest.take(j)) {
                Some(n) => Some((n, rest.skip(j + 1))),
                None => None,
            }
        } else {
            None
        }
    } else {
        None
    }
}

/// The meaning of one trimmed line.
pub open spec fn pls_line(l: Seq<char>) -> PlsLine {
    if starts_with_ci(l, "file"@) {
        match keyed_value(l, "file"@) {
            Some((n, v)) => PlsLine::File(n, trim(v)),
            None => PlsLine::Other,
        }
    } else if starts_with_ci(l, "title"@) {
        match keyed_value(l, "title"@) {
            Some((n, v)) => PlsLine::Title(n, trim(v)),
            None => PlsLine::Other,
        }
    } else if starts_with_ci(l, "bitrate"@) {
        match keyed_value(l, "bitrate"@) {
            Some((n, v)) => match parse_u32(trim(v)) {
                Some(b) => PlsLine::Bitrate(n, b),
                None => PlsLine::Other,
            },
            None => PlsLine::Other,
        }
    } else {
        PlsLine::Other
    }
}

pub open spec fn empty_entry() -> PlsEntryView {
    PlsEntryView { file: Seq::empty(), title: None, bitrate: None }
}

/// Index of the slot numbered `n`, or -1.
pub open spec fn slot_index(es: Seq<(u32, PlsEntryView)>, n: u32) -> int
    decreases es.len(),
{
    if es.len() == 0 {
        -1
    } else {
        let p = slot_index(es.drop_last(), n);
        if p >= 0 {
            p
        } else if es.last().0 == n {
            es.len() - 1
        } else {
            -1
        }
    }
}

/// The entry numbered `n`, or a fresh one.
pub open spec fn slot_entry(es: Seq<(u32, PlsEntryView)>, n: u32) -> PlsEntryView {
    let i = slot_index(es, n);
    if i >= 0 {
        es[i].1
    } else {
        empty_entry()
    }
}

/// `es` with the entry numbered `n` replaced by `e` (appended if new).
pub open spec fn put_slot(es: Seq<(u32, PlsEntryView)>, n: u32, e: PlsEntryView) -> Seq<
    (u32, PlsEntryView),
> {
    let i = slot_index(es, n);
    if i >= 0 {
        es.update(i, (n, e))
    } else {
        es.push((n, e))
    }
}

/// The slots after one more trimmed line.
pub open spec fn apply_line(es: Seq<(u32, PlsEntryView)>, l: Seq<char>) -> Seq<
    (u32, PlsEntryView),
> {
    match pls_line(l) {
        PlsLine::File(n, v) => put_slot(es, n, PlsEntryView { file: v, ..slot_entry(es, n) }),
        PlsLine::Title(n, v) => put_slot(
            es,
            n,
            PlsEntryView { title: Some(v), ..slot_entry(es, n) },
        ),
        PlsLine::Bitrate(n, b) => put_slot(
            es,
            n,
            PlsEntryView { bitrate: Some(b), ..slot_entry(es, n) },
        ),
        PlsLine::Other => es,
    }
}

/// The numbered entries after reading `lines` in order, each in the place
/// where its number first appeared.
pub open spec fn pls_slots(lines: Seq<Seq<char>>) -> Seq<(u32, PlsEntryView)>
    decreases lines.len(),
{
    if lines.len() == 0 {
        Seq::empty()
    } else {
        apply_line(pls_slots(lines.drop_last()), trim(lines.last()))
    }
}

/// The entries that a PLS text defines. Splitting at `\n` and trimming each
/// piece gives the same lines as `str::lines` followed by a trim, but for a
/// final empty piece, which no rule reads.
pub open spec fn pls_entries(content: Seq<char>) -> Seq<PlsEntryView> {
    pls_slots(split(content, '\n')).map_values(|s: (u32, PlsEntryView)| s.1)
}

/// The key by which entries are compared: the bitrate, 0 when absent.
pub open spec fn rate(e: PlsEntryView) -> u32 {
    match e.bitrate {
        Some(b) => b,
        None => 0,
    }
}

/// The position that `Iterator::max_by_key` on `rate` picks: a highest rate,
/// the last one among equals.
pub open spec fn last_max_index(s: Seq<PlsEntryView>) -> int
    decreases s.len(),
{
    if s.len() <= 1 {
        0
    } else {
        let j = last_max_index(s.drop_last());
        if rate(s.last()) >= rate(s[j]) {
            s.len() - 1
        } else {
            j
        }
    }
}

/// The entry of a PLS text that is played, if it has any.
pub open spec fn pls_best(content: Seq<char>) -> Option<PlsEntryView> {
    let es = pls_entries(content);
    if es.len() == 0 {
        None
    } else {
        Some(es[last_max_index(es)])
    }
}

/// The entry that is played has the highest bitrate of all (0 standing for
/// none), and no later entry has as high a one.
pub proof fn lemma_last_max_index(s: Seq<PlsEntryView>)
    requires
        s.len() > 0,
    ensures
        0 <= last_max_index(s) < s.len(),
        forall|k: int| 0 <= k < s.len() ==> rate(#[trigger] s[k]) <= rate(s[last_max_index(s)]),
        forall|k: int| last_max_index(s) < k < s.len() ==> rate(#[trigger] s[k]) < rate(s[last_max_index(s)]),
    decreases s.len(),
{
    if s.len() > 1 {
        let t = s.drop_last();
        lemma_last_max_index(t);
        assert forall|k: int| 0 <= k < s.len() - 1 implies #[trigger] s[k] == t[k] by {}
    }
}

/// Numbers of distinct slots differ.
pub open spec fn distinct_numbers(es: Seq<(u32, PlsEntryView)>) -> bool {
    forall|i: int, j: int| 0 <= i < j < es.len() ==> es[i].0 != es[j].0
}

proof fn lemma_slot_index(es: Seq<(u32, PlsEntryView)>, n: u32)
    ensures
        -1 <= slot_index(es, n) < es.len(),
        slot_index(es, n) >= 0 ==> es[slot_index(es, n)].0 == n,
        slot_index(es, n) == -1 ==> forall|k: int| 0 <= k < es.len() ==> es[k].0 != n,
    decreases es.len(),
{
    if es.len() > 0 {
        lemma_slot_index(es.drop_last(), n);
        if slot_index(es, n) == -1 {
            assert forall|k: int| 0 <= k < es.len() implies es[k].0 != n by {
                if k < es.len() - 1 {
                    assert(es[k] == es.drop_last()[k]);
                }
            }
        }
    }
}

/// However a PLS text reads, each entry number occurs in one slot only.
pub proof fn lemma_pls_numbers_distinct(lines: Seq<Seq<char>>)
    ensures
        distinct_numbers(pls_slots(lines)),
    decreases lines.len(),
{
    if lines.len() > 0 {
        let es = pls_slots(lines.drop_last());
        lemma_pls_numbers_distinct(lines.drop_last());
        match pls_line(trim(lines.last())) {
            PlsLine::File(n, _) => lemma_put_distinct(es, n),
            PlsLine::Title(n, _) => lemma_put_distinct(es, n),
            PlsLine::Bitrate(n, _) => lemma_put_distinct(es, n),
            PlsLine::Other => {},
        }
    }
}

proof fn lemma_put_distinct(es: Seq<(u32, PlsEntryView)>, n: u32)
    requires
        distinct_numbers(es),
    ensures
        forall|e: PlsEntryView| #[trigger] distinct_numbers(put_slot(es, n, e)),
{
    lemma_slot_index(es, n);
    assert forall|e: PlsEntryView| #[trigger] distinct_numbers(put_slot(es, n, e)) by {
        let r = put_slot(es, n, e);
        assert forall|i: int, j: int| 0 <= i < j < r.len() implies r[i].0 != r[j].0 by {
            if slot_index(es, n) == -1 {
                if j == es.len() {
                    assert(r[i] == es[i]);
                } else {
                    assert(r[i] == es[i] && r[j] == es[j]);
                }
            }
        }
    }
}

/// A number that `str::parse::<u32>` accepts holds no `=`.
proof fn lemma_number_has_no_eq(n: Seq<char>, x: u32)
    requires
        parse_u32(n) == Some(x),
    ensures
        forall|i: int| 0 <= i < n.len() ==> n[i] != '=',
{
    let d = unsigned_digits(n);
    assert forall|i: int| 0 <= i < n.len() implies n[i] != '=' by {
        if n.len() > 0 && n[0] == '+' {
            if i > 0 {
                assert(d[i - 1] == n[i]);
                assert(is_digit(d[i - 1]));
            }
        } else {
            assert(d[i] == n[i]);
            assert(is_digit(d[i]));
        }
    }
}

/// A keyed line `<kw><n>=<v>` gives the number `n` and the value `v` whole:
/// the number ends at the first `=` after the keyword, and the value may
/// itself hold `=`.
pub proof fn lemma_keyed_value(kw: Seq<char>, p: Seq<char>, n: Seq<char>, v: Seq<char>, x: u32)
    requires
        p.len() == kw.len(),
        forall|i: int| 0 <= i < p.len() ==> ascii_lower(#[trigger] p[i]) == kw[i],
        parse_u32(n) == Some(x),
    ensures
        keyed_value(p + n + seq!['='] + v, kw) == Some((x, v)),
{
    let l = p + n + seq!['='] + v;
    lemma_number_has_no_eq(n, x);
    assert forall|i: int| 0 <= i < kw.len() implies ascii_lower(#[trigger] l[i]) == kw[i] by {
        assert(l[i] == p[i]);
    }
    assert(starts_with_ci(l, kw));
    let rest = l.skip(kw.len() as int);
    assert(rest =~= n + seq!['='] + v);
    lemma_first_index_bounds(rest, '=');
    let j = first_index_of(rest, '=');
    assert(rest[n.len() as int] == '=');
    assert forall|k: int| 0 <= k < n.len() implies rest[k] != '=' by {
        assert(rest[k] == n[k]);
    }
    assert(j == n.len());
    assert(rest.take(j) =~= n);
    assert(rest.skip(j + 1) =~= v);
}

/// A line `File<n>=<v>` (keyword in any ASCII case) sets the address of
/// entry `n` to `v` trimmed, whatever `v` holds.
pub proof fn lemma_file_line(p: Seq<char>, n: Seq<char>, v: Seq<char>, x: u32)
    requires
        p.len() == 4,
        forall|i: int| 0 <= i < 4 ==> ascii_lower(#[trigger] p[i]) == "file"@[i],
        parse_u32(n) == Some(x),
    ensures
        pls_line(p + n + seq!['='] + v) == PlsLine::File(x, trim(v)),
{
    reveal_strlit("file");
    lemma_keyed_value("file"@, p, n, v, x);
    let l = p + n + seq!['='] + v;
    assert forall|i: int| 0 <= i < 4 implies ascii_lower(#[trigger] l[i]) == "file"@[i] by {
        assert(l[i] == p[i]);
    }
}

/// A line `Title<n>=<v>` (keyword in any ASCII case) sets the title of
/// entry `n` to `v` trimmed, whatever `v` holds.
pub proof fn lemma_title_line(p: Seq<char>, n: Seq<char>, v: Seq<char>, x: u32)
    requires
        p.len() == 5,
        forall|i: int| 0 <= i < 5 ==> ascii_lower(#[trigger] p[i]) == "title"@[i],
        parse_u32(n) == Some(x),
    ensures
        pls_line(p + n + seq!['='] + v) == PlsLine::Title(x, trim(v)),
{
    reveal_strlit("file");
    reveal_strlit("title");
    lemma_keyed_value("title"@, p, n, v, x);
    let l = p + n + seq!['='] + v;
    assert(l[0] == p[0]);
    assert(ascii_lower(l[0]) == 't');
    assert(!starts_with_ci(l, "file"@));
    assert forall|i: int| 0 <= i < 5 implies ascii_lower(#[trigger] l[i]) == "title"@[i] by {
        assert(l[i] == p[i]);
    }
}

/// A file line read into the slots leaves entry `x` with address `w`, and
/// keeps its title and bitrate.
pub proof fn lemma_file_line_sets_entry(es: Seq<(u32, PlsEntryView)>, l: Seq<char>, x: u32, w: Seq<char>)
    requires
        pls_line(l) == PlsLine::File(x, w),
    ensures
        slot_index(apply_line(es, l), x) >= 0,
        apply_line(es, l)[slot_index(apply_line(es, l), x)].1.file == w,
        apply_line(es, l)[slot_index(apply_line(es, l), x)].1.title == slot_entry(es, x).title,
        apply_line(es, l)[slot_index(apply_line(es, l), x)].1.bitrate == slot_entry(es, x).bitrate,
{
    lemma_slot_index(es, x);
    let r = apply_line(es, l);
    lemma_slot_index(r, x);
    let i = slot_index(es, x);
    if i >= 0 {
        assert forall|k: int| 0 <= k < i implies r[k].0 != x by {
            lemma_slot_first(es, x, k);
        }
        lemma_slot_first_is(r, x, i);
    } else {
        assert forall|k: int| 0 <= k < es.len() implies r[k].0 != x by {
            assert(r[k] == es[k]);
        }
        lemma_slot_first_is(r, x, es.len() as int);
    }
}

proof fn lemma_slot_first(es: Seq<(u32, PlsEntryView)>, n: u32, k: int)
    requires
        0 <= k < slot_index(es, n),
    ensures
        es[k].0 != n,
    decreases es.len(),
{
    lemma_slot_index(es, n);
    if es.len() > 0 {
        let p = slot_index(es.drop_last(), n);
        lemma_slot_index(es.drop_last(), n);
        if p >= 0 {
            lemma_slot_first(es.drop_last(), n, k);
        } else {
            assert(es[k] == es.drop_last()[k]);
        }
    }
}

proof fn lemma_slot_first_is(es: Seq<(u32, PlsEntryView)>, n: u32, i: int)
    requires
        0 <= i < es.len(),
        es[i].0 == n,
        forall|k: int| 0 <= k < i ==> es[k].0 != n,
    ensures
        slot_index(es, n) == i,
    decreases es.len(),
{
    if i < es.len() - 1 {
        assert forall|k: int| 0 <= k < i implies es.drop_last()[k].0 != n by {
            assert(es.drop_last()[k] == es[k]);
        }
        assert(es.drop_last()[i] == es[i]);
        lemma_slot_first_is(es.drop_last(), n, i);
    } else {
        lemma_slot_index(es.drop_last(), n);
        if slot_index(es.drop_last(), n) >= 0 {
            let p = slot_index(es.drop_last(), n);
            assert(es.drop_last()[p] == es[p]);
        }
    }
}

/// The line kinds that the exec parser tells apart.
enum LineKind {
    File(u32, Vec<char>),
    Title(u32, Vec<char>),
    Bitrate(u32, u32),
    Other,
}

spec fn kind_matches(k: LineKind, p: PlsLine) -> bool {
    match (k, p) {
        (LineKind::File(n, v), PlsLine::File(m, w)) => n == m && v@ == w,
        (LineKind::Title(n, v), PlsLine::Title(m, w)) => n == m && v@ == w,
        (LineKind::Bitrate(n, b), PlsLine::Bitrate(m, c)) => n == m && b == c,
        (LineKind::Other, PlsLine::Other) => true,
        _ => false,
    }
}

/// Reads `<kw><n>=<value>` from `l`, once `l` is known to begin with `kw`.
fn read_keyed(l: &[char], kw_len: usize, Ghost(kw): Ghost<Seq<char>>) -> (r: Option<(u32, Vec<char>)>)
    requires
        kw.len() == kw_len,
        starts_with_ci(l@, kw),
    ensures
        match (r, keyed_value(l@, kw)) {
            (Some((n, v)), Some((m, w))) => n == m && v@ == w,
            (None, None) => true,
            _ => false,
        },
{
    let rest = slice_chars(l, kw_len, l.len());
    match find_char(&rest, '=') {
        None => None,
        Some(j) => {
            let num = slice_chars(&rest, 0, j);
            assert(num@ =~= rest@.take(j as int));
            match parse_u32_chars(&num) {
                None => None,
                Some(n) => {
                    let v = slice_chars(&rest, j + 1, rest.len());
                    assert(v@ =~= rest@.skip(j + 1));
                    Some((n, v))
                },
            }
        },
    }
}

fn classify_line(l: &[char]) -> (r: LineKind)
    ensures
        kind_matches(r, pls_line(l@)),
{
    proof {
        reveal_strlit("file");
        reveal_strlit("title");
        reveal_strlit("bitrate");
    }
    if has_prefix_ci(l, "file") {
        match read_keyed(l, 4, Ghost("file"@)) {
            Some((n, v)) => LineKind::File(n, trim_chars(&v)),
            None => LineKind::Other,
        }
    } else if has_prefix_ci(l, "title") {
        match read_keyed(l, 5, Ghost("title"@)) {
            Some((n, v)) => LineKind::Title(n, trim_chars(&v)),
            None => LineKind::Other,
        }
    } else if has_prefix_ci(l, "bitrate") {
        match read_keyed(l, 7, Ghost("bitrate"@)) {
            Some((n, v)) => {
                let t = trim_chars(&v);
                match parse_u32_chars(&t) {
                    Some(b) => LineKind::Bitrate(n, b),
                    None => LineKind::Other,
                }
            },
            None => LineKind::Other,
        }
    } else {
        LineKind::Other
    }
}

spec fn slots_match(nums: Seq<u32>, entries: Seq<PlsEntry>, es: Seq<(u32, PlsEntryView)>) -> bool {
    &&& nums.len() == es.len()
    &&& entries.len() == es.len()
    &&& forall|k: int| 0 <= k < es.len() ==> nums[k] == (#[trigger] es[k]).0 && entries[k]@ == es[k].1
}

fn find_slot(nums: &Vec<u32>, n: u32, Ghost(es): Ghost<Seq<(u32, PlsEntryView)>>) -> (r: Option<usize>)
    requires
        nums@.len() == es.len(),
        forall|k: int| 0 <= k < es.len() ==> nums@[k] == (#[trigger] es[k]).0,
    ensures
        match r {
            Some(i) => i == slot_index(es, n),
            None => slot_index(es, n) == -1,
        },
{
    let mut i: usize = 0;
    while i < nums.len()
        invariant
            i <= nums@.len() == es.len(),
            forall|k: int| 0 <= k < es.len() ==> nums@[k] == (#[trigger] es[k]).0,
            slot_index(es.take(i as int), n) == -1,
        decreases nums.len() - i,
    {
        proof {
            assert(es.take(i + 1).drop_last() =~= es.take(i as int));
        }
        if nums[i] == n {
            proof {
                lemma_slot_index_extend(es, n, i + 1);
            }
            return Some(i);
        }
        i += 1;
    }
    proof {
        assert(es.take(es.len() as int) =~= es);
    }
    None
}

proof fn lemma_slot_index_extend(es: Seq<(u32, PlsEntryView)>, n: u32, m: int)
    requires
        0 < m <= es.len(),
        slot_index(es.take(m), n) >= 0,
    ensures
        slot_index(es, n) == slot_index(es.take(m), n),
    decreases es.len() - m,
{
    if m < es.len() {
        assert(es.drop_last().take(m) =~= es.take(m));
        lemma_slot_index_extend(es.drop_last(), n, m);
    } else {
        assert(es.take(m) =~= es);
    }
}

fn fresh_entry() -> (r: PlsEntry)
    ensures
        r@ == empty_entry(),
{
    PlsEntry { file: String::new(), title: None, bitrate: None }
}

/// Collects the numbered entries of a PLS text: for each number, the last
/// `FileN` value, the last `TitleN` value and the last readable `BitrateN`,
/// in the order in which the numbers first appear.
pub fn parse_pls_entries(content: &str) -> (r: Vec<PlsEntry>)
    ensures
        entry_views(r@) == pls_entries(content@),
{
    let chars = chars_of(content);
    let lines = split_chars(&chars, '\n');
    let ghost all = split(content@, '\n');
    let mut nums: Vec<u32> = Vec::new();
    let mut entries: Vec<PlsEntry> = Vec::new();
    let mut i: usize = 0;
    while i < lines.len()
        invariant
            i <= lines@.len() == all.len(),
            all == split(content@, '\n'),
            forall|k: int| 0 <= k < lines@.len() ==> (#[trigger] lines@[k])@ == all[k],
            slots_match(nums@, entries@, pls_slots(all.take(i as int))),
        decreases lines.len() - i,
    {
        let ghost es = pls_slots(all.take(i as int));
        proof {
            assert(all.take(i + 1).drop_last() =~= all.take(i as int));
            assert(all.take(i + 1).last() == all[i as int]);
        }
        let line = trim_chars(&lines[i]);
        let kind = classify_line(&line);
        let ghost nes = pls_slots(all.take(i + 1));
        assert(nes == apply_line(es, line@));
        let ghost nums_old = nums@;
        let ghost entries_old = entries@;
        let (n, found) = match &kind {
            LineKind::File(n, _) => (*n, true),
            LineKind::Title(n, _) => (*n, true),
            LineKind::Bitrate(n, _) => (*n, true),
            LineKind::Other => (0, false),
        };
        if found {
            let slot = find_slot(&nums, n, Ghost(es));
            proof {
                lemma_slot_index(es, n);
            }
            let idx = match slot {
                Some(j) => j,
                None => {
                    nums.push(n);
                    entries.push(fresh_entry());
                    entries.len() - 1
                },
            };
            let mut e = fresh_entry();
            std::mem::swap(&mut e, &mut entries[idx]);
            let ghost before = e@;
            assert(before == slot_entry(es, n));
            match kind {
                LineKind::File(_, v) => {
                    e.file = string_of(&v);
                },
                LineKind::Title(_, v) => {
                    e.title = Some(string_of(&v));
                },
                LineKind::Bitrate(_, b) => {
                    e.bitrate = Some(b);
                },
                LineKind::Other => {},
            }
            entries.set(idx, e);
            proof {
                assert(slots_match(nums@, entries@, nes)) by {
                    assert forall|k: int| 0 <= k < nes.len() implies nums@[k] == (#[trigger] nes[k]).0
                        && entries@[k]@ == nes[k].1 by {
                        if k != idx {
                            assert(nes[k] == es[k]);
                            assert(nums@[k] == nums_old[k]);
                            assert(entries@[k] == entries_old[k]);
                        }
                    }
                }
            }
        }
        i += 1;
    }
    proof {
        assert(all.take(all.len() as int) =~= all);
        assert(entry_views(entries@) =~= pls_entries(content@));
    }
    entries
}

/// The entry with the highest bitrate (0 when absent), the last one among
/// equals, as `Iterator::max_by_key` picks it; `None` for no entries.
pub fn select_best_entry(entries: &[PlsEntry]) -> (r: Option<&PlsEntry>)
    ensures
        match r {
            Some(e) => entries@.len() > 0 && e == &entries@[last_max_index(
                entries@.map_values(|x: PlsEntry| x@),
            )],
            None => entries@.len() == 0,
        },
{
    if entries.len() == 0 {
        return None;
    }
    let ghost views = entries@.map_values(|x: PlsEntry| x@);
    let mut best: usize = 0;
    let mut best_rate: u32 = match entries[0].bitrate {
        Some(b) => b,
        None => 0,
    };
    let mut i: usize = 1;
    proof {
        assert(views.take(1).len() == 1);
    }
    while i < entries.len()
        invariant
            1 <= i <= entries@.len(),
            views == entries@.map_values(|x: PlsEntry| x@),
            best == last_max_index(views.take(i as int)),
            best < i,
            best_rate == rate(views[best as int]),
        decreases entries.len() - i,
    {
        proof {
            assert(views.take(i + 1).drop_last() =~= views.take(i as int));
            assert(views.take(i + 1).last() == views[i as int]);
            assert(views.take(i as int)[best as int] == views[best as int]);
        }
        let r_i = match entries[i].bitrate {
            Some(b) => b,
            None => 0,
        };
        if r_i >= best_rate {
            best = i;
            best_rate = r_i;
        }
        i += 1;
    }
    proof {
        assert(views.take(entries.len() as int) =~= views);
    }
    Some(&entries[best])
}

/// The stream address, title (empty when absent) and bitrate of the entry of
/// a PLS text that is played; `None` when the text defines no entry.
pub fn resolve_pls(content: &str) -> (r: Option<(String, String, Option<u32>)>)
    ensures
        match (r, pls_best(content@)) {
            (Some((f, t, b)), Some(e)) => f@ == e.file && t@ == (match e.title {
                Some(x) => x,
                None => Seq::empty(),
            }) && b == e.bitrate,
            (None, None) => true,
            _ => false,
        },
{
    let entries = parse_pls_entries(content);
    proof {
        assert(entries@.map_values(|x: PlsEntry| x@) =~= pls_entries(content@));
    }
    match select_best_entry(&entries) {
        None => None,
        Some(e) => {
            proof {
                let es = pls_entries(content@);
                lemma_last_max_index(es);
                assert(e@ == es[last_max_index(es)]);
            }
            let title = match &e.title {
                Some(t) => t.clone(),
                None => String::new(),
            };
            Some((e.file.clone(), title, e.bitrate))
        },
    }
}

} // verus!
