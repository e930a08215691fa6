//! The motivating dictionary: chemical elements, filed in a [`Trie`] under
//! the lowercased characters of their symbol.
//!
//! The element table arrives as comma-separated text (one row per element,
//! first row a header); parsing it into records is part of this module.

use crate::trie::Trie;
use vstd::prelude::*;
use vstd::string::StrSliceExecFns;
use vstd::string::StringExecFns;

verus! {

/// One chemical element record, as stored in the dictionary.
#[derive(Debug, Clone, PartialEq, Eq)]
pub struct Element {
    pub name: String,
    pub short: String,
    pub neutrons: u16,
    pub protons: u16,
    pub electrons: u16,
}

/// The mathematical content of an [`Element`]: its strings as character
/// sequences.
pub struct ElementData {
    pub name: Seq<char>,
    pub short: Seq<char>,
    pub neutrons: u16,
    pub protons: u16,
    pub electrons: u16,
}

impl View for Element {
    type V = ElementData;

    open spec fn view(&self) -> ElementData {
        ElementData {
            name: self.name@,
            short: self.short@,
            neutrons: self.neutrons,
            protons: self.protons,
            electrons: self.electrons,
        }
    }
}

/// ASCII uppercase letters fold to lowercase; every other character is kept.
pub open spec fn lower_char_spec(c: char) -> char {
    match c {
        'A' => 'a',
        'B' => 'b',
        'C' => 'c',
        'D' => 'd',
        'E' => 'e',
        'F' => 'f',
        'G' => 'g',
        'H' => 'h',
        'I' => 'i',
        'J' => 'j',
        'K' => 'k',
        'L' => 'l',
        'M' => 'm',
        'N' => 'n',
        'O' => 'o',
        'P' => 'p',
        'Q' => 'q',
        'R' => 'r',
        'S' => 's',
        'T' => 't',
        'U' => 'u',
        'V' => 'v',
        'W' => 'w',
        'X' => 'x',
        'Y' => 'y',
        'Z' => 'z',
        _ => c,
    }
}

/// A character sequence with every ASCII uppercase letter folded.
pub open spec fn lower_seq(s: Seq<char>) -> Seq<char> {
    s.map_values(|c: char| lower_char_spec(c))
}

/// The spelled form of an element inside a segmentation: the characters of
/// its symbol, lowercased — exactly the key `element_trie` files it under.
pub open spec fn spelling(e: ElementData) -> Seq<char> {
    lower_seq(e.short)
}

fn lower_char(c: char) -> (r: char)
    ensures
        r == lower_char_spec(c),
{
    match c {
        'A' => 'a',
        'B' => 'b',
        'C' => 'c',
        'D' => 'd',
        'E' => 'e',
        'F' => 'f',
        'G' => 'g',
        'H' => 'h',
        'I' => 'i',
        'J' => 'j',
        'K' => 'k',
        'L' => 'l',
        'M' => 'm',
        'N' => 'n',
        'O' => 'o',
        'P' => 'p',
        'Q' => 'q',
        'R' => 'r',
        'S' => 's',
        'T' => 't',
        'U' => 'u',
        'V' => 'v',
        'W' => 'w',
        'X' => 'x',
        'Y' => 'y',
        'Z' => 'z',
        _ => c,
    }
}

/// The characters of `s`, ASCII-lowercased: the key under which an element
/// with symbol `s` is filed.
fn lower_chars(s: &str) -> (r: Vec<char>)
    ensures
        r@ == lower_seq(s@),
{
    let n: usize = s.unicode_len();
    let mut r: Vec<char> = Vec::new();
    let mut i: usize = 0;
    while i < n
        invariant
            n == s@.len(),
            i <= n,
            r@ == lower_seq(s@.take(i as int)),
        decreases n - i,
    {
        let c = s.get_char(i);
        r.push(lower_char(c));
        proof {
            assert(s@.take(i + 1).drop_last() =~= s@.take(i as int));
            assert(s@.take(i + 1).last() == s@[i as int]);
            assert(lower_seq(s@.take(i + 1)) =~= lower_seq(s@.take(i as int)).push(
                lower_char_spec(s@[i as int]),
            ));
        }
        i = i + 1;
    }
    proof {
        assert(s@.take(n as int) =~= s@);
    }
    r
}

/// The comma- or newline-separated pieces of a character sequence: one piece
/// per separator occurrence, plus the piece after the last one. Never empty;
/// an empty input has one empty piece.
pub open spec fn split_on(s: Seq<char>, sep: char) -> Seq<Seq<char>>
    decreases s.len(),
{
    if s.len() <= 0 {
        seq![Seq::<char>::empty()]
    } else if s[0] == sep {
        seq![Seq::<char>::empty()] + split_on(s.skip(1), sep)
    } else {
        let r = split_on(s.skip(1), sep);
        seq![seq![s[0]] + r[0]] + r.skip(1)
    }
}

/// A decimal digit.
pub open spec fn is_digit(c: char) -> bool {
    48 <= c as u32 <= 57
}

/// The value of one decimal digit.
pub open spec fn digit_val(c: char) -> int {
    c as u32 - 48
}

pub open spec fn all_digits(s: Seq<char>) -> bool {
    forall|x: int| 0 <= x < s.len() ==> is_digit(#[trigger] s[x])
}

/// The number a digit sequence denotes, most significant digit first.
pub open spec fn digits_val(s: Seq<char>) -> int
    decreases s.len(),
{
    if s.len() <= 0 {
        0
    } else {
        digits_val(s.drop_last()) * 10 + digit_val(s.last())
    }
}

/// A count field parses when it is a non-empty run of decimal digits whose
/// value fits in sixteen bits; leading zeros are allowed.
pub open spec fn parse_u16(s: Seq<char>) -> Option<u16> {
    if s.len() > 0 && all_digits(s) && 0 <= digits_val(s) <= 65535 {
        Some(digits_val(s) as u16)
    } else {
        None
    }
}

proof fn lemma_digits_val_nonneg(s: Seq<char>)
    requires
        all_digits(s),
    ensures
        digits_val(s) >= 0,
    decreases s.len(),
{
    if s.len() > 0 {
        assert(all_digits(s.drop_last())) by {
            assert(forall|x: int|
                0 <= x < s.drop_last().len() ==> #[trigger] s.drop_last()[x] == s[x]);
        }
        lemma_digits_val_nonneg(s.drop_last());
        assert(is_digit(s.last()));
    }
}

proof fn lemma_digits_val_prefix(s: Seq<char>, j: int)
    requires
        all_digits(s),
        0 <= j <= s.len(),
    ensures
        digits_val(s.take(j)) <= digits_val(s),
    decreases s.len() - j,
{
    if j < s.len() {
        lemma_digits_val_prefix(s, j + 1);
        assert(s.take(j + 1).drop_last() =~= s.take(j));
        assert(s.take(j + 1).last() == s[j]);
        assert(all_digits(s.take(j))) by {
            assert(forall|x: int| 0 <= x < j ==> #[trigger] s.take(j)[x] == s[x]);
        }
        lemma_digits_val_nonneg(s.take(j));
        assert(is_digit(s[j]));
        assert(digits_val(s.take(j + 1)) == digits_val(s.take(j)) * 10 + digit_val(s[j]));
        assert(digits_val(s.take(j)) <= digits_val(s.take(j)) * 10);
    } else {
        assert(s.take(j) =~= s);
    }
}

/// One data row: the first five comma-separated fields are the element's
/// name, its symbol, and its neutron, proton and electron counts; the three
/// counts must parse as sixteen-bit decimals. Anything else describes no
/// element. Fields past the fifth are ignored.
pub open spec fn line_elem(s: Seq<char>) -> Option<ElementData> {
    let f = split_on(s, ',');
    if f.len() >= 5 {
        match (parse_u16(f[2]), parse_u16(f[3]), parse_u16(f[4])) {
            (Some(n), Some(p), Some(el)) => Some(
                ElementData { name: f[0], short: f[1], neutrons: n, protons: p, electrons: el },
            ),
            _ => None,
        }
    } else {
        None
    }
}

/// The elements a sequence of data rows describes, in order; rows that
/// describe no element contribute nothing.
pub open spec fn parse_rows(rows: Seq<Seq<char>>) -> Seq<ElementData>
    decreases rows.len(),
{
    if rows.len() <= 0 {
        Seq::empty()
    } else {
        (match line_elem(rows[0]) {
            Some(e) => seq![e],
            None => Seq::<ElementData>::empty(),
        }) + parse_rows(rows.skip(1))
    }
}

/// The elements a whole table describes: its newline-separated rows after
/// the header row, each read as a data row.
pub open spec fn parse_elements(s: Seq<char>) -> Seq<ElementData> {
    parse_rows(split_on(s, '\n').skip(1))
}

/// The records of an element vector, as data.
pub open spec fn elems_view(v: Seq<Element>) -> Seq<ElementData> {
    v.map_values(|e: Element| e@)
}

/// The option an element lookup returns, as data.
pub open spec fn opt_view(o: Option<Element>) -> Option<ElementData> {
    match o {
        Some(e) => Some(e@),
        None => None,
    }
}

/// Last-wins lookup in a table: the value filed under key `k` is the latest
/// listed element whose lowercased symbol is `k`; nothing is filed under the
/// empty key.
pub open spec fn table_lookup(tbl: Seq<ElementData>, k: Seq<char>) -> Option<ElementData>
    decreases tbl.len(),
{
    if tbl.len() <= 0 {
        None
    } else if k == spelling(tbl.last()) && k.len() >= 1 {
        Some(tbl.last())
    } else {
        table_lookup(tbl.drop_last(), k)
    }
}

/// Parse one data row. `None` exactly when the row has fewer than five
/// comma-separated fields or one of its three counts is not a plain
/// sixteen-bit decimal; such rows describe no element.
pub fn element_from_csv(line: &str) -> (r: Option<Element>)
    ensures
        match r {
            Some(e) => line_elem(line@) == Some(e@),
            None => line_elem(line@) is None,
        },
{
    proof {
        assert(line@.skip(0) =~= line@);
    }
    let spans = split_spans(line, 0, ',');
    let ghost f = split_on(line@, ',');
    if spans.len() < 5 {
        return None;
    }
    let s0 = spans[0];
    let s1 = spans[1];
    let s2 = spans[2];
    let s3 = spans[3];
    let s4 = spans[4];
    let neutrons = match parse_u16_field(line, s2.0, s2.1) {
        Some(v) => v,
        None => {
            return None;
        },
    };
    let protons = match parse_u16_field(line, s3.0, s3.1) {
        Some(v) => v,
        None => {
            return None;
        },
    };
    let electrons = match parse_u16_field(line, s4.0, s4.1) {
        Some(v) => v,
        None => {
            return None;
        },
    };
    let name = String::from_str(line.substring_char(s0.0, s0.1));
    let short = String::from_str(line.substring_char(s1.0, s1.1));
    let e = Element { name, short, neutrons, protons, electrons };
    proof {
        assert(e@ == line_elem(line@)->Some_0);
    }
    Some(e)
}

/// All elements a comma-separated table describes: one row per element after
/// the header row, in table order; rows that describe no element are
/// skipped.
pub fn get_elements(csv: &str) -> (r: Vec<Element>)
    ensures
        elems_view(r@) == parse_elements(csv@),
{
    proof {
        assert(csv@.skip(0) =~= csv@);
    }
    let rows = split_spans(csv, 0, '\n');
    let ghost rowviews = split_on(csv@, '\n');
    let mut r: Vec<Element> = Vec::new();
    let mut k: usize = 1;
    proof {
        assert(rowviews.subrange(1, 1) =~= Seq::<Seq<char>>::empty());
    }
    while k < rows.len()
        invariant
            1 <= k,
            k <= rows@.len() || k == 1,
            rows@.map_values(|p: (usize, usize)| csv@.subrange(p.0 as int, p.1 as int))
                == rowviews,
            forall|x: int|
                0 <= x < rows@.len() ==> 0 <= (#[trigger] rows@[x]).0 <= rows@[x].1
                    <= csv@.len(),
            rowviews == split_on(csv@, '\n'),
            k <= rows@.len() ==> elems_view(r@) == parse_rows(rowviews.subrange(1, k as int)),
            k > rows@.len() ==> elems_view(r@) == parse_rows(rowviews.skip(1)),
        decreases rows@.len() - k,
    {
        let sp = rows[k];
        let ghost row = rowviews[k as int];
        let ghost before = r@;
        match element_from_csv(csv.substring_char(sp.0, sp.1)) {
            Some(e) => {
                r.push(e);
            },
            None => {},
        }
        proof {
            lemma_parse_rows_snoc(rowviews.subrange(1, k as int), row);
            assert(rowviews.subrange(1, k as int).push(row) =~= rowviews.subrange(
                1,
                k as int + 1,
            ));
            assert(elems_view(r@) =~= parse_rows(rowviews.subrange(1, k as int + 1)));
            if k + 1 > rows@.len() {
                assert(rowviews.subrange(1, k as int + 1) =~= rowviews.skip(1));
            }
        }
        k = k + 1;
    }
    proof {
        if rows@.len() <= 1 {
            assert(rowviews.len() == rows@.len());
            if rowviews.len() == 1 {
                assert(rowviews.subrange(1, 1) =~= rowviews.skip(1));
            }
        }
    }
    r
}

proof fn lemma_parse_rows_snoc(rows: Seq<Seq<char>>, row: Seq<char>)
    ensures
        parse_rows(rows.push(row)) == parse_rows(rows) + (match line_elem(row) {
            Some(e) => seq![e],
            None => Seq::<ElementData>::empty(),
        }),
    decreases rows.len(),
{
    let whole = rows.push(row);
    if rows.len() == 0 {
        let item = (match line_elem(row) {
            Some(e) => seq![e],
            None => Seq::<ElementData>::empty(),
        });
        assert(whole[0] == row);
        assert(whole.skip(1) =~= Seq::<Seq<char>>::empty());
        assert(parse_rows(whole) == item + parse_rows(whole.skip(1)));
        assert(parse_rows(whole.skip(1)) == Seq::<ElementData>::empty());
        assert(parse_rows(rows) == Seq::<ElementData>::empty());
        assert(item + Seq::<ElementData>::empty() =~= Seq::<ElementData>::empty() + item);
        assert(parse_rows(whole) =~= parse_rows(rows) + item);
    } else {
        let item = (match line_elem(row) {
            Some(e) => seq![e],
            None => Seq::<ElementData>::empty(),
        });
        let head = (match line_elem(rows[0]) {
            Some(e) => seq![e],
            None => Seq::<ElementData>::empty(),
        });
        assert(whole[0] == rows[0]);
        assert(whole.skip(1) =~= rows.skip(1).push(row));
        lemma_parse_rows_snoc(rows.skip(1), row);
        assert(parse_rows(whole) == head + parse_rows(whole.skip(1)));
        assert(parse_rows(whole.skip(1)) == parse_rows(rows.skip(1).push(row)));
        assert(parse_rows(whole.skip(1)) == parse_rows(rows.skip(1)) + item);
        assert(parse_rows(rows) == head + parse_rows(rows.skip(1)));
        assert(head + (parse_rows(rows.skip(1)) + item) =~= (head + parse_rows(rows.skip(1)))
            + item);
        assert(parse_rows(whole) =~= parse_rows(rows) + item);
    }
}

/// Build the dictionary: every element of the table, filed under the
/// lowercased characters of its symbol; on duplicate keys the last row wins.
/// The result is well-spelled, which is what `segment` asks of a dictionary.
pub fn element_trie(csv: &str) -> (r: Trie<Element>)
    ensures
        forall|k: Seq<char>|
            opt_view(#[trigger] r.value_at(k)) == table_lookup(parse_elements(csv@), k),
        crate::segment::well_spelled(r),
{
    let mut elems = get_elements(csv);
    let ghost table = parse_elements(csv@);
    let ghost all = elems@;
    let mut trie = Trie::root();
    proof {
        assert(elems_view(all).take(0) =~= Seq::<ElementData>::empty());
    }
    while elems.len() > 0
        invariant
            elems@ == all.skip(all.len() - elems@.len()),
            elems@.len() <= all.len(),
            elems_view(all) == table,
            forall|k: Seq<char>|
                opt_view(#[trigger] trie.value_at(k)) == table_lookup(
                    elems_view(all).take(all.len() - elems@.len()),
                    k,
                ),
            crate::segment::well_spelled(trie),
        decreases elems@.len(),
    {
        let ghost i = all.len() - elems@.len();
        let e = elems.remove(0);
        proof {
            assert(all.skip(i as int)[0] == all[i as int]);
            assert(e == all[i as int]);
            assert(elems@ =~= all.skip(i as int + 1));
        }
        let ghost ed = e@;
        let key = lower_chars(e.short.as_str());
        proof {
            assert(key@ == spelling(ed));
        }
        let ghost pre = trie;
        trie.insert(key.as_slice(), e);
        proof {
            let tbl = elems_view(all);
            assert(tbl[i as int] == ed);
            assert(tbl.take(i as int + 1).last() == ed);
            assert(tbl.take(i as int + 1).drop_last() =~= tbl.take(i as int));
            assert forall|k: Seq<char>| opt_view(#[trigger] trie.value_at(k)) == table_lookup(
                tbl.take(i as int + 1),
                k,
            ) by {
                if key@.len() > 0 && k == key@ {
                    assert(trie.value_at(k) matches Some(x) && x@ == ed);
                } else {
                    assert(trie.value_at(k) == pre.value_at(k));
                    if k == spelling(ed) && k.len() >= 1 {
                        assert(false);
                    }
                }
            }
            assert forall|k: Seq<char>|
                #[trigger] trie.value_at(k) matches Some(x) ==> (k == spelling(x@) && k.len()
                    >= 1) by {
                if !(key@.len() > 0 && k == key@) {
                    assert(trie.value_at(k) == pre.value_at(k));
                }
            }
        }
    }
    proof {
        assert(elems_view(all).take(all.len() as int) =~= elems_view(all));
    }
    trie
}

fn split_spans(s: &str, i: usize, sep: char) -> (r: Vec<(usize, usize)>)
    requires
        i <= s@.len(),
    ensures
        r@.map_values(|p: (usize, usize)| s@.subrange(p.0 as int, p.1 as int)) == split_on(
            s@.skip(i as int),
            sep,
        ),
        forall|x: int| 0 <= x < r@.len() ==> i <= (#[trigger] r@[x]).0 <= r@[x].1 <= s@.len(),
        r@.len() >= 1,
        r@[0].0 == i,
    decreases s@.len() - i,
{
    let ghost rem = s@.skip(i as int);
    let n: usize = s.unicode_len();
    if i == n {
        let mut r: Vec<(usize, usize)> = Vec::new();
        r.push((i, i));
        proof {
            assert(rem =~= Seq::<char>::empty());
            assert(s@.subrange(i as int, i as int) =~= Seq::<char>::empty());
            assert(r@.map_values(|p: (usize, usize)| s@.subrange(p.0 as int, p.1 as int)) =~= seq![
                Seq::<char>::empty(),
            ]);
        }
        r
    } else {
        let c = s.get_char(i);
        proof {
            assert(rem.len() > 0);
            assert(rem[0] == s@[i as int]);
            assert(rem.skip(1) =~= s@.skip(i as int + 1));
        }
        if c == sep {
            let mut r = split_spans(s, i + 1, sep);
            r.insert(0, (i, i));
            proof {
                assert(s@.subrange(i as int, i as int) =~= Seq::<char>::empty());
                assert(r@.map_values(|p: (usize, usize)| s@.subrange(p.0 as int, p.1 as int))
                    =~= seq![Seq::<char>::empty()] + split_on(rem.skip(1), sep));
            }
            r
        } else {
            let mut r = split_spans(s, i + 1, sep);
            let ghost sub = split_on(rem.skip(1), sep);
            let first = r.remove(0);
            proof {
                assert(s@.subrange(first.0 as int, first.1 as int) == sub[0]);
            }
            r.insert(0, (i, first.1));
            proof {
                assert(s@.subrange(i as int, first.1 as int) =~= seq![rem[0]] + sub[0]);
                assert(r@.map_values(|p: (usize, usize)| s@.subrange(p.0 as int, p.1 as int))
                    =~= seq![seq![rem[0]] + sub[0]] + sub.skip(1));
            }
            r
        }
    }
}

fn parse_u16_field(s: &str, from: usize, to: usize) -> (r: Option<u16>)
    requires
        from <= to <= s@.len(),
    ensures
        r == parse_u16(s@.subrange(from as int, to as int)),
{
    let ghost f = s@.subrange(from as int, to as int);
    if from == to {
        return None;
    }
    let mut acc: u32 = 0;
    let mut i: usize = from;
    while i < to
        invariant
            from <= i <= to,
            to <= s@.len(),
            f == s@.subrange(from as int, to as int),
            all_digits(f.take(i - from)),
            acc == digits_val(f.take(i - from)),
            acc <= 65535,
        decreases to - i,
    {
        let c = s.get_char(i);
        let u = c as u32;
        proof {
            assert(f[i - from] == s@[i as int]);
        }
        if u < 48 || u > 57 {
            proof {
                assert(!is_digit(f[i - from]));
            }
            return None;
        }
        let d = u - 48;
        let newv = acc * 10 + d;
        proof {
            assert(f.take(i - from + 1).drop_last() =~= f.take(i - from));
            assert(f.take(i - from + 1).last() == f[i - from]);
            assert(all_digits(f.take(i - from + 1)));
            assert(newv == digits_val(f.take(i - from + 1)));
        }
        if newv > 65535 {
            proof {
                if all_digits(f) {
                    lemma_digits_val_prefix(f, i - from + 1);
                }
            }
            return None;
        }
        acc = newv;
        i = i + 1;
    }
    proof {
        assert(f.take(to - from) =~= f);
        lemma_digits_val_nonneg(f);
    }
    Some(acc as u16)
}

} // verus!
