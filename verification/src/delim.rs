//! The record-file text format: comma-separated fields, one line per
//! row, each line ended by a newline. A field holding a comma, a
//! quote or a line break is written quoted, with inner quotes
//! doubled. The parser is exact: it accepts precisely the texts this
//! grammar describes, and `CRLF` line ends.

use vstd::prelude::*;

verus! {

/// Characters that end an unquoted field.
pub open spec fn is_field_break(c: char) -> bool {
    c == ',' || c == '\n' || c == '\r'
}

/// A field is written quoted when it holds a separator, a quote or a
/// line break.
pub open spec fn field_needs_quoting(f: Seq<char>) -> bool {
    exists|k: int| 0 <= k < f.len() && (is_field_break(#[trigger] f[k]) || f[k] == '"')
}

pub open spec fn escape_one(c: char) -> Seq<char> {
    if c == '"' {
        seq!['"', '"']
    } else {
        seq![c]
    }
}

/// Field content with every quote doubled.
pub open spec fn escape_quotes(f: Seq<char>) -> Seq<char>
    decreases f.len(),
{
    if f.len() == 0 {
        Seq::empty()
    } else {
        escape_one(f[0]) + escape_quotes(f.drop_first())
    }
}

/// On-disk form of one field.
pub open spec fn encode_field(f: Seq<char>) -> Seq<char> {
    if field_needs_quoting(f) {
        seq!['"'] + escape_quotes(f) + seq!['"']
    } else {
        f
    }
}

/// On-disk form of one row: fields joined by commas, without the
/// line end.
pub open spec fn encode_line(fs: Seq<Seq<char>>) -> Seq<char>
    decreases fs.len(),
{
    if fs.len() == 0 {
        Seq::empty()
    } else if fs.len() == 1 {
        encode_field(fs[0])
    } else {
        encode_field(fs[0]) + seq![','] + encode_line(fs.drop_first())
    }
}

/// On-disk form of a whole table: each row followed by a newline.
/// An empty table is an empty file.
pub open spec fn encode_table(ls: Seq<Seq<Seq<char>>>) -> Seq<char>
    decreases ls.len(),
{
    if ls.len() == 0 {
        Seq::empty()
    } else {
        encode_line(ls[0]) + seq!['\n'] + encode_table(ls.drop_first())
    }
}

/// Content and end position of a quoted field body starting at `i`
/// (just after the opening quote); `None` on an unterminated quote.
pub open spec fn parse_quoted(s: Seq<char>, i: int) -> Option<(Seq<char>, int)>
    decreases s.len() - i,
    when 0 <= i <= s.len()
{
    if i >= s.len() {
        None
    } else if s[i] == '"' {
        if i + 1 < s.len() && s[i + 1] == '"' {
            match parse_quoted(s, i + 2) {
                Some((c, j)) => Some((seq!['"'] + c, j)),
                None => None,
            }
        } else {
            Some((Seq::empty(), i + 1))
        }
    } else {
        match parse_quoted(s, i + 1) {
            Some((c, j)) => Some((seq![s[i]] + c, j)),
            None => None,
        }
    }
}

/// Content and end position of an unquoted field starting at `i`;
/// `None` on a stray quote inside the field.
pub open spec fn parse_unquoted(s: Seq<char>, i: int) -> Option<(Seq<char>, int)>
    decreases s.len() - i,
    when 0 <= i <= s.len()
{
    if i >= s.len() || is_field_break(s[i]) {
        Some((Seq::empty(), i))
    } else if s[i] == '"' {
        None
    } else {
        match parse_unquoted(s, i + 1) {
            Some((c, j)) => Some((seq![s[i]] + c, j)),
            None => None,
        }
    }
}

/// Content and end position of one field starting at `i`.
pub open spec fn parse_field(s: Seq<char>, i: int) -> Option<(Seq<char>, int)> {
    if 0 <= i < s.len() && s[i] == '"' {
        parse_quoted(s, i + 1)
    } else {
        parse_unquoted(s, i)
    }
}

pub proof fn lemma_parse_quoted_bounds(s: Seq<char>, i: int)
    requires
        0 <= i <= s.len(),
    ensures
        match parse_quoted(s, i) {
            Some((c, j)) => i < j <= s.len(),
            None => true,
        },
    decreases s.len() - i,
{
    if i < s.len() {
        if s[i] == '"' {
            if i + 1 < s.len() && s[i + 1] == '"' {
                lemma_parse_quoted_bounds(s, i + 2);
            }
        } else {
            lemma_parse_quoted_bounds(s, i + 1);
        }
    }
}

pub proof fn lemma_parse_unquoted_bounds(s: Seq<char>, i: int)
    requires
        0 <= i <= s.len(),
    ensures
        match parse_unquoted(s, i) {
            Some((c, j)) => i <= j <= s.len(),
            None => true,
        },
    decreases s.len() - i,
{
    if i < s.len() && !is_field_break(s[i]) && s[i] != '"' {
        lemma_parse_unquoted_bounds(s, i + 1);
    }
}

pub proof fn lemma_parse_field_bounds(s: Seq<char>, i: int)
    requires
        0 <= i <= s.len(),
    ensures
        match parse_field(s, i) {
            Some((c, j)) => i <= j <= s.len(),
            None => true,
        },
{
    if i < s.len() && s[i] == '"' {
        lemma_parse_quoted_bounds(s, i + 1);
    } else {
        lemma_parse_unquoted_bounds(s, i);
    }
}

/// Fields of one row and the position after its line end (or after
/// the last field, at end of input). `None` on a malformed field, on
/// a character other than a separator or line end after a quoted
/// field, or on a carriage return not followed by a newline.
pub open spec fn parse_line(s: Seq<char>, i: int) -> Option<(Seq<Seq<char>>, int)>
    decreases s.len() - i,
    when 0 <= i <= s.len()
    via parse_line_dec
{
    match parse_field(s, i) {
        None => None,
        Some((f, j)) => {
            if j >= s.len() {
                Some((seq![f], j))
            } else if s[j] == ',' {
                match parse_line(s, j + 1) {
                    Some((fs, k)) => Some((seq![f] + fs, k)),
                    None => None,
                }
            } else if s[j] == '\n' {
                Some((seq![f], j + 1))
            } else if s[j] == '\r' && j + 1 < s.len() && s[j + 1] == '\n' {
                Some((seq![f], j + 2))
            } else {
                None
            }
        },
    }
}

#[via_fn]
proof fn parse_line_dec(s: Seq<char>, i: int) {
    lemma_parse_field_bounds(s, i);
}

pub proof fn lemma_parse_line_bounds(s: Seq<char>, i: int)
    requires
        0 <= i <= s.len(),
    ensures
        match parse_line(s, i) {
            Some((fs, k)) => i <= k <= s.len() && fs.len() >= 1 && (i < s.len() ==> i < k),
            None => true,
        },
    decreases s.len() - i,
{
    lemma_parse_field_bounds(s, i);
    match parse_field(s, i) {
        None => {},
        Some((f, j)) => {
            if j < s.len() && s[j] == ',' {
                lemma_parse_line_bounds(s, j + 1);
            }
        },
    }
}

/// All rows of the input from position `i` to the end.
pub open spec fn parse_table(s: Seq<char>, i: int) -> Option<Seq<Seq<Seq<char>>>>
    decreases s.len() - i,
    when 0 <= i <= s.len()
    via parse_table_dec
{
    if i >= s.len() {
        Some(Seq::empty())
    } else {
        match parse_line(s, i) {
            None => None,
            Some((fs, k)) => match parse_table(s, k) {
                Some(ls) => Some(seq![fs] + ls),
                None => None,
            },
        }
    }
}

#[via_fn]
proof fn parse_table_dec(s: Seq<char>, i: int) {
    if 0 <= i < s.len() {
        lemma_parse_line_bounds(s, i);
    }
}

/// A window into `s` that equals `a` contains, shifted, every
/// window into `a`.
pub proof fn lemma_subrange_shift<T>(s: Seq<T>, i: int, a: Seq<T>, off: int, b: Seq<T>)
    requires
        0 <= i,
        i + a.len() <= s.len(),
        s.subrange(i, i + a.len()) == a,
        0 <= off,
        off + b.len() <= a.len(),
        b == a.subrange(off, off + b.len()),
    ensures
        s.subrange(i + off, i + off + b.len()) == b,
{
    assert forall|t: int| 0 <= t < b.len() implies s.subrange(i + off, i + off + b.len())[t]
        == b[t] by {
        assert(s.subrange(i, i + a.len())[off + t] == s[i + off + t]);
    }
    assert(s.subrange(i + off, i + off + b.len()) =~= b);
}

/// Parsing reads back a clean (unquoted) field exactly.
pub proof fn lemma_parse_unquoted_exact(s: Seq<char>, i: int, f: Seq<char>)
    requires
        0 <= i,
        i + f.len() <= s.len(),
        s.subrange(i, i + f.len()) == f,
        !field_needs_quoting(f),
        i + f.len() == s.len() || is_field_break(s[i + f.len()]),
    ensures
        parse_unquoted(s, i) == Some((f, i + f.len())),
    decreases f.len(),
{
    if f.len() == 0 {
        assert(parse_unquoted(s, i) == Some((Seq::<char>::empty(), i)));
        assert(f =~= Seq::<char>::empty());
    } else {
        assert(s[i] == f[0]);
        assert(!(is_field_break(f[0]) || f[0] == '"'));
        let f1 = f.drop_first();
        assert(!field_needs_quoting(f1)) by {
            if field_needs_quoting(f1) {
                let k = choose|k: int|
                    0 <= k < f1.len() && (is_field_break(f1[k]) || f1[k] == '"');
                assert(f1[k] == f[k + 1]);
            }
        }
        assert(s.subrange(i + 1, i + 1 + f1.len()) =~= f1);
        lemma_parse_unquoted_exact(s, i + 1, f1);
        assert(seq![s[i]] + f1 =~= f);
    }
}

/// Parsing reads back an escaped quoted field body exactly.
pub proof fn lemma_parse_quoted_exact(s: Seq<char>, i: int, f: Seq<char>)
    requires
        0 <= i,
        i + escape_quotes(f).len() + 1 <= s.len(),
        s.subrange(i, i + escape_quotes(f).len()) == escape_quotes(f),
        s[i + escape_quotes(f).len()] == '"',
        i + escape_quotes(f).len() + 1 == s.len() || s[i + escape_quotes(f).len() + 1] != '"',
    ensures
        parse_quoted(s, i) == Some((f, i + escape_quotes(f).len() + 1)),
    decreases f.len(),
{
    let e = escape_quotes(f);
    if f.len() == 0 {
        assert(e.len() == 0);
        assert(s[i] == '"');
        assert(parse_quoted(s, i) == Some((Seq::<char>::empty(), i + 1)));
        assert(f =~= Seq::<char>::empty());
    } else {
        let c = f[0];
        let f1 = f.drop_first();
        let e1 = escape_quotes(f1);
        assert(e == escape_one(c) + e1);
        if c == '"' {
            assert(e.len() == 2 + e1.len());
            assert(s[i] == e[0] && e[0] == '"');
            assert(s[i + 1] == e[1] && e[1] == '"');
            assert(e1 =~= e.subrange(2, 2 + e1.len() as int));
            lemma_subrange_shift(s, i, e, 2, e1);
            lemma_parse_quoted_exact(s, i + 2, f1);
            assert(seq!['"'] + f1 =~= f);
        } else {
            assert(e.len() == 1 + e1.len());
            assert(s[i] == e[0] && e[0] == c);
            assert(e1 =~= e.subrange(1, 1 + e1.len() as int));
            lemma_subrange_shift(s, i, e, 1, e1);
            lemma_parse_quoted_exact(s, i + 1, f1);
            assert(seq![s[i]] + f1 =~= f);
        }
    }
}

/// Parsing reads back an encoded field exactly when a separator, a
/// line end or the end of input follows it.
pub proof fn lemma_parse_field_exact(s: Seq<char>, i: int, f: Seq<char>)
    requires
        0 <= i,
        i + encode_field(f).len() <= s.len(),
        s.subrange(i, i + encode_field(f).len()) == encode_field(f),
        i + encode_field(f).len() == s.len() || is_field_break(s[i + encode_field(f).len()]),
    ensures
        parse_field(s, i) == Some((f, i + encode_field(f).len())),
{
    let e = encode_field(f);
    if field_needs_quoting(f) {
        let q = escape_quotes(f);
        assert(e == seq!['"'] + q + seq!['"']);
        assert(e.len() == q.len() + 2);
        assert(s[i] == e[0] && e[0] == '"');
        assert(q =~= e.subrange(1, 1 + q.len() as int));
        lemma_subrange_shift(s, i, e, 1, q);
        assert(s[i + 1 + q.len()] == e[q.len() as int + 1]);
        assert(e[q.len() as int + 1] == '"');
        if i + e.len() < s.len() {
            assert(is_field_break(s[i + 2 + q.len()]));
            assert(s[i + 2 + q.len()] != '"');
        }
        lemma_parse_quoted_exact(s, i + 1, f);
    } else {
        assert(e == f);
        if f.len() == 0 {
            assert(parse_field(s, i) == parse_unquoted(s, i)) by {
                if i < s.len() && s[i] == '"' {
                    assert(is_field_break(s[i + 0]));
                }
            }
        } else {
            assert(s[i] == f[0]);
            assert(!(is_field_break(f[0]) || f[0] == '"'));
        }
        lemma_parse_unquoted_exact(s, i, f);
    }
}

/// Parsing reads back an encoded row exactly when a newline follows
/// it.
pub proof fn lemma_parse_line_exact(s: Seq<char>, i: int, fs: Seq<Seq<char>>)
    requires
        0 <= i,
        fs.len() >= 1,
        i + encode_line(fs).len() + 1 <= s.len(),
        s.subrange(i, i + encode_line(fs).len()) == encode_line(fs),
        s[i + encode_line(fs).len()] == '\n',
    ensures
        parse_line(s, i) == Some((fs, i + encode_line(fs).len() + 1)),
    decreases fs.len(),
{
    let el = encode_line(fs);
    let f = fs[0];
    let ef = encode_field(f);
    if fs.len() == 1 {
        assert(el == ef);
        assert(s.subrange(i, i + ef.len()) =~= ef);
        lemma_parse_field_exact(s, i, f);
        assert(seq![f] =~= fs);
    } else {
        let fs1 = fs.drop_first();
        let el1 = encode_line(fs1);
        assert(el == ef + seq![','] + el1);
        assert(el.len() == ef.len() + 1 + el1.len());
        assert(s.subrange(i, i + ef.len()) =~= ef);
        assert(s[i + ef.len()] == el[ef.len() as int]);
        assert(el[ef.len() as int] == ',');
        lemma_parse_field_exact(s, i, f);
        let j = i + ef.len();
        assert(el1 =~= el.subrange(ef.len() as int + 1, el.len() as int));
        lemma_subrange_shift(s, i, el, ef.len() as int + 1, el1);
        assert(s[j + 1 + el1.len()] == '\n');
        lemma_parse_line_exact(s, j + 1, fs1);
        assert(seq![f] + fs1 =~= fs);
    }
}

/// Parsing reads back an encoded table exactly.
pub proof fn lemma_parse_table_exact(s: Seq<char>, i: int, ls: Seq<Seq<Seq<char>>>)
    requires
        0 <= i <= s.len(),
        s.subrange(i, s.len() as int) == encode_table(ls),
        forall|r: int| 0 <= r < ls.len() ==> #[trigger] ls[r].len() >= 1,
    ensures
        parse_table(s, i) == Some(ls),
    decreases ls.len(),
{
    let et = encode_table(ls);
    if ls.len() == 0 {
        assert(et.len() == 0);
        assert(i == s.len());
        assert(ls =~= Seq::<Seq<Seq<char>>>::empty());
    } else {
        let fs = ls[0];
        let el = encode_line(fs);
        let ls1 = ls.drop_first();
        assert(et == el + seq!['\n'] + encode_table(ls1));
        assert(s.len() - i == et.len());
        assert(s.subrange(i, i + el.len()) =~= el);
        assert(s[i + el.len()] == et[el.len() as int]);
        assert(et[el.len() as int] == '\n');
        lemma_parse_line_exact(s, i, fs);
        let k = i + el.len() + 1;
        assert(encode_table(ls1) =~= et.subrange(el.len() as int + 1, et.len() as int));
        lemma_subrange_shift(s, i, et, el.len() as int + 1, encode_table(ls1));
        assert(s.subrange(k, s.len() as int) =~= encode_table(ls1));
        assert(forall|r: int| 0 <= r < ls1.len() ==> #[trigger] ls1[r].len() >= 1) by {
            assert(forall|r: int| 0 <= r < ls1.len() ==> ls1[r] == ls[r + 1]);
        }
        lemma_parse_table_exact(s, k, ls1);
        assert(i < s.len());
        assert(seq![fs] + ls1 =~= ls);
    }
}

/// The table round trip: every table of non-empty rows parses back
/// from its encoding unchanged.
pub proof fn lemma_table_round_trip(ls: Seq<Seq<Seq<char>>>)
    requires
        forall|r: int| 0 <= r < ls.len() ==> #[trigger] ls[r].len() >= 1,
    ensures
        parse_table(encode_table(ls), 0) == Some(ls),
{
    let s = encode_table(ls);
    assert(s.subrange(0, s.len() as int) =~= s);
    lemma_parse_table_exact(s, 0, ls);
}

/// The character views of a sequence of character vectors.
pub open spec fn views_of(fs: Seq<Vec<char>>) -> Seq<Seq<char>> {
    Seq::new(fs.len(), |i: int| fs[i]@)
}

/// The character views of a sequence of rows of character vectors.
pub open spec fn views2_of(ls: Seq<Vec<Vec<char>>>) -> Seq<Seq<Seq<char>>> {
    Seq::new(ls.len(), |i: int| views_of(ls[i]@))
}

/// Appending a row appends its view.
pub proof fn lemma_views2_push(ls: Seq<Vec<Vec<char>>>, r: Vec<Vec<char>>)
    ensures
        views2_of(ls.push(r)) == views2_of(ls).push(views_of(r@)),
{
    assert(views2_of(ls.push(r)) =~= views2_of(ls).push(views_of(r@)));
}

/// Escaping distributes over appending one character.
proof fn lemma_escape_snoc(a: Seq<char>, c: char)
    ensures
        escape_quotes(a.push(c)) == escape_quotes(a) + escape_one(c),
    decreases a.len(),
{
    if a.len() == 0 {
        assert(a.push(c).drop_first() =~= Seq::<char>::empty());
        assert(a.push(c)[0] == c);
        assert(escape_quotes(Seq::<char>::empty()) == Seq::<char>::empty());
        assert(escape_quotes(a.push(c)) =~= escape_quotes(a) + escape_one(c));
    } else {
        assert(a.push(c).drop_first() =~= a.drop_first().push(c));
        assert(a.push(c)[0] == a[0]);
        lemma_escape_snoc(a.drop_first(), c);
        assert(escape_quotes(a.push(c)) == escape_one(a[0]) + escape_quotes(a.drop_first().push(c)));
        assert(escape_quotes(a.push(c)) =~= escape_quotes(a) + escape_one(c));
    }
}

/// A separator and a field append to a non-empty encoded row.
proof fn lemma_encode_line_snoc(fs: Seq<Seq<char>>, f: Seq<char>)
    requires
        fs.len() >= 1,
    ensures
        encode_line(fs.push(f)) == encode_line(fs) + seq![','] + encode_field(f),
    decreases fs.len(),
{
    if fs.len() == 1 {
        assert(fs.push(f).drop_first() =~= seq![f]);
        assert(encode_line(seq![f]) == encode_field(f));
        assert(encode_line(fs.push(f)) =~= encode_line(fs) + seq![','] + encode_field(f));
    } else {
        assert(fs.push(f).drop_first() =~= fs.drop_first().push(f));
        lemma_encode_line_snoc(fs.drop_first(), f);
        assert(encode_line(fs.push(f)) =~= encode_line(fs) + seq![','] + encode_field(f));
    }
}

/// A row and its newline append to an encoded table.
proof fn lemma_encode_table_snoc(ls: Seq<Seq<Seq<char>>>, fs: Seq<Seq<char>>)
    ensures
        encode_table(ls.push(fs)) == encode_table(ls) + encode_line(fs) + seq!['\n'],
    decreases ls.len(),
{
    if ls.len() == 0 {
        assert(ls.push(fs).drop_first() =~= Seq::<Seq<Seq<char>>>::empty());
        assert(ls.push(fs)[0] == fs);
        assert(encode_table(Seq::<Seq<Seq<char>>>::empty()) == Seq::<char>::empty());
        assert(encode_table(ls.push(fs)) == encode_line(fs) + seq!['\n'] + encode_table(
            ls.push(fs).drop_first(),
        ));
        assert(encode_table(ls.push(fs)) =~= encode_table(ls) + encode_line(fs) + seq!['\n']);
    } else {
        assert(ls.push(fs).drop_first() =~= ls.drop_first().push(fs));
        assert(ls.push(fs)[0] == ls[0]);
        lemma_encode_table_snoc(ls.drop_first(), fs);
        assert(encode_table(ls.push(fs)) == encode_line(ls[0]) + seq!['\n'] + encode_table(
            ls.drop_first().push(fs),
        ));
        assert(encode_table(ls.push(fs)) =~= encode_table(ls) + encode_line(fs) + seq!['\n']);
    }
}

/// Decides whether a field must be written quoted.
pub fn needs_quoting(f: &Vec<char>) -> (r: bool)
    ensures
        r == field_needs_quoting(f@),
{
    let n = f.len();
    let mut i: usize = 0;
    while i < n
        invariant
            i <= n,
            n == f@.len(),
            forall|k: int| 0 <= k < i ==> !(is_field_break(#[trigger] f@[k]) || f@[k] == '"'),
        decreases n - i,
    {
        let c = f[i];
        if c == ',' || c == '\n' || c == '\r' || c == '"' {
            return true;
        }
        i = i + 1;
    }
    false
}

/// Appends the field content with every quote doubled.
fn push_escaped(out: &mut Vec<char>, f: &Vec<char>)
    ensures
        final(out)@ == old(out)@ + escape_quotes(f@),
{
    let n = f.len();
    let mut i: usize = 0;
    proof {
        assert(f@.subrange(0, 0) =~= Seq::<char>::empty());
        assert(out@ =~= out@ + escape_quotes(f@.subrange(0, 0)));
    }
    while i < n
        invariant
            i <= n,
            n == f@.len(),
            out@ == old(out)@ + escape_quotes(f@.subrange(0, i as int)),
        decreases n - i,
    {
        let c = f[i];
        if c == '"' {
            out.push('"');
            out.push('"');
        } else {
            out.push(c);
        }
        proof {
            assert(f@.subrange(0, i as int + 1) =~= f@.subrange(0, i as int).push(c));
            lemma_escape_snoc(f@.subrange(0, i as int), c);
            assert(out@ =~= old(out)@ + escape_quotes(f@.subrange(0, i as int + 1)));
        }
        i = i + 1;
    }
    proof {
        assert(f@.subrange(0, n as int) =~= f@);
    }
}

/// Appends the on-disk form of one field.
pub fn push_encoded_field(out: &mut Vec<char>, f: &Vec<char>)
    ensures
        final(out)@ == old(out)@ + encode_field(f@),
{
    if needs_quoting(f) {
        out.push('"');
        push_escaped(out, f);
        out.push('"');
        proof {
            assert(out@ =~= old(out)@ + encode_field(f@));
        }
    } else {
        let n = f.len();
        let mut i: usize = 0;
        while i < n
            invariant
                i <= n,
                n == f@.len(),
                out@ == old(out)@ + f@.subrange(0, i as int),
            decreases n - i,
        {
            out.push(f[i]);
            i = i + 1;
            proof {
                assert(out@ =~= old(out)@ + f@.subrange(0, i as int));
            }
        }
        proof {
            assert(f@.subrange(0, n as int) =~= f@);
        }
    }
}

/// Appends the on-disk form of one row, without the line end.
pub fn push_encoded_line(out: &mut Vec<char>, fs: &Vec<Vec<char>>)
    ensures
        final(out)@ == old(out)@ + encode_line(views_of(fs@)),
{
    let n = fs.len();
    if n == 0 {
        proof {
            assert(out@ =~= old(out)@ + encode_line(views_of(fs@)));
        }
        return ;
    }
    push_encoded_field(out, &fs[0]);
    proof {
        assert(views_of(fs@).subrange(0, 1) =~= seq![fs@[0]@]);
        assert(encode_line(views_of(fs@).subrange(0, 1)) == encode_field(fs@[0]@));
        assert(out@ =~= old(out)@ + encode_line(views_of(fs@).subrange(0, 1)));
    }
    let mut k: usize = 1;
    while k < n
        invariant
            1 <= k <= n,
            n == fs@.len(),
            out@ == old(out)@ + encode_line(views_of(fs@).subrange(0, k as int)),
        decreases n - k,
    {
        out.push(',');
        push_encoded_field(out, &fs[k]);
        proof {
            let pre = views_of(fs@).subrange(0, k as int);
            assert(views_of(fs@).subrange(0, k as int + 1) =~= pre.push(fs@[k as int]@));
            lemma_encode_line_snoc(pre, fs@[k as int]@);
            assert(out@ =~= old(out)@ + encode_line(views_of(fs@).subrange(0, k as int + 1)));
        }
        k = k + 1;
    }
    proof {
        assert(views_of(fs@).subrange(0, n as int) =~= views_of(fs@));
    }
}

/// Reads a quoted field body starting just after its opening quote.
fn take_quoted(s: &Vec<char>, i: usize) -> (r: Option<(Vec<char>, usize)>)
    requires
        i <= s.len(),
    ensures
        match r {
            Some(p) => parse_quoted(s@, i as int) == Some((p.0@, p.1 as int)) && i < p.1
                <= s.len(),
            None => parse_quoted(s@, i as int) is None,
        },
{
    let n = s.len();
    let mut acc: Vec<char> = Vec::new();
    let mut cur: usize = i;
    proof {
        if let Some((c, j)) = parse_quoted(s@, i as int) {
            assert(acc@ + c =~= c);
        }
        lemma_parse_quoted_bounds(s@, i as int);
    }
    loop
        invariant
            i <= cur <= n,
            n == s@.len(),
            parse_quoted(s@, i as int) == match parse_quoted(s@, cur as int) {
                Some((c, j)) => Some((acc@ + c, j)),
                None => None::<(Seq<char>, int)>,
            },
            parse_quoted(s@, i as int) matches Some((c, j)) ==> i < j <= s@.len(),
        decreases n - cur,
    {
        if cur >= n {
            return None;
        }
        let c = s[cur];
        if c == '"' {
            if cur + 1 < n && s[cur + 1] == '"' {
                proof {
                    if let Some((c1, j)) = parse_quoted(s@, cur as int + 2) {
                        assert(acc@ + (seq!['"'] + c1) =~= acc@.push('"') + c1);
                    }
                }
                acc.push('"');
                cur = cur + 2;
            } else {
                proof {
                    assert(parse_quoted(s@, cur as int) == Some(
                        (Seq::<char>::empty(), cur as int + 1),
                    ));
                    assert(acc@ + Seq::<char>::empty() =~= acc@);
                }
                return Some((acc, cur + 1));
            }
        } else {
            proof {
                if let Some((c1, j)) = parse_quoted(s@, cur as int + 1) {
                    assert(acc@ + (seq![s@[cur as int]] + c1) =~= acc@.push(s@[cur as int]) + c1);
                }
            }
            acc.push(c);
            cur = cur + 1;
        }
    }
}

/// Reads an unquoted field starting at `i`.
fn take_unquoted(s: &Vec<char>, i: usize) -> (r: Option<(Vec<char>, usize)>)
    requires
        i <= s.len(),
    ensures
        match r {
            Some(p) => parse_unquoted(s@, i as int) == Some((p.0@, p.1 as int)) && i <= p.1
                <= s.len(),
            None => parse_unquoted(s@, i as int) is None,
        },
{
    let n = s.len();
    let mut acc: Vec<char> = Vec::new();
    let mut cur: usize = i;
    proof {
        if let Some((c, j)) = parse_unquoted(s@, i as int) {
            assert(acc@ + c =~= c);
        }
        lemma_parse_unquoted_bounds(s@, i as int);
    }
    loop
        invariant
            i <= cur <= n,
            n == s@.len(),
            parse_unquoted(s@, i as int) == match parse_unquoted(s@, cur as int) {
                Some((c, j)) => Some((acc@ + c, j)),
                None => None::<(Seq<char>, int)>,
            },
            parse_unquoted(s@, i as int) matches Some((c, j)) ==> i <= j <= s@.len(),
        decreases n - cur,
    {
        if cur >= n {
            proof {
                assert(acc@ + Seq::<char>::empty() =~= acc@);
            }
            return Some((acc, cur));
        }
        let c = s[cur];
        if c == ',' || c == '\n' || c == '\r' {
            proof {
                assert(acc@ + Seq::<char>::empty() =~= acc@);
            }
            return Some((acc, cur));
        }
        if c == '"' {
            return None;
        }
        proof {
            if let Some((c1, j)) = parse_unquoted(s@, cur as int + 1) {
                assert(acc@ + (seq![s@[cur as int]] + c1) =~= acc@.push(s@[cur as int]) + c1);
            }
        }
        acc.push(c);
        cur = cur + 1;
    }
}

/// Reads one field starting at `i`.
fn take_field(s: &Vec<char>, i: usize) -> (r: Option<(Vec<char>, usize)>)
    requires
        i <= s.len(),
    ensures
        match r {
            Some(p) => parse_field(s@, i as int) == Some((p.0@, p.1 as int)) && i <= p.1
                <= s.len(),
            None => parse_field(s@, i as int) is None,
        },
{
    if i < s.len() && s[i] == '"' {
        take_quoted(s, i + 1)
    } else {
        take_unquoted(s, i)
    }
}

/// Reads one row starting at `i`.
fn take_line(s: &Vec<char>, i: usize) -> (r: Option<(Vec<Vec<char>>, usize)>)
    requires
        i <= s.len(),
    ensures
        match r {
            Some(p) => parse_line(s@, i as int) == Some((views_of(p.0@), p.1 as int)) && i <= p.1
                <= s.len() && (i < s.len() ==> i < p.1),
            None => parse_line(s@, i as int) is None,
        },
{
    let n = s.len();
    let mut acc: Vec<Vec<char>> = Vec::new();
    let mut cur: usize = i;
    proof {
        if let Some((fs, k)) = parse_line(s@, i as int) {
            assert(views_of(acc@) + fs =~= fs);
        }
        lemma_parse_line_bounds(s@, i as int);
    }
    loop
        invariant
            i <= cur <= n,
            n == s@.len(),
            parse_line(s@, i as int) == match parse_line(s@, cur as int) {
                Some((fs, k)) => Some((views_of(acc@) + fs, k)),
                None => None::<(Seq<Seq<char>>, int)>,
            },
            parse_line(s@, i as int) matches Some((fs, k)) ==> i <= k <= s@.len() && (i < s@.len()
                ==> i < k),
        decreases n - cur,
    {
        let f = match take_field(s, cur) {
            Some(p) => p,
            None => {
                return None;
            },
        };
        let j = f.1;
        let fv = f.0;
        if j >= n {
            proof {
                assert(views_of(acc@) + seq![fv@] =~= views_of(acc@.push(fv)));
            }
            acc.push(fv);
            return Some((acc, j));
        }
        let cj = s[j];
        if cj == ',' {
            proof {
                if let Some((fs1, k)) = parse_line(s@, j as int + 1) {
                    assert(views_of(acc@) + (seq![fv@] + fs1) =~= views_of(acc@.push(fv)) + fs1);
                }
            }
            acc.push(fv);
            cur = j + 1;
        } else if cj == '\n' {
            proof {
                assert(views_of(acc@) + seq![fv@] =~= views_of(acc@.push(fv)));
            }
            acc.push(fv);
            return Some((acc, j + 1));
        } else if cj == '\r' && j + 1 < n && s[j + 1] == '\n' {
            proof {
                assert(views_of(acc@) + seq![fv@] =~= views_of(acc@.push(fv)));
            }
            acc.push(fv);
            return Some((acc, j + 2));
        } else {
            return None;
        }
    }
}

/// Reads every row of the input; `None` exactly when the text is
/// not in the table format.
pub fn parse_table_exec(s: &Vec<char>) -> (r: Option<Vec<Vec<Vec<char>>>>)
    ensures
        match r {
            Some(t) => parse_table(s@, 0) == Some(views2_of(t@)),
            None => parse_table(s@, 0) is None,
        },
{
    let n = s.len();
    let mut acc: Vec<Vec<Vec<char>>> = Vec::new();
    let mut cur: usize = 0;
    proof {
        if let Some(ls) = parse_table(s@, 0) {
            assert(views2_of(acc@) + ls =~= ls);
        }
    }
    loop
        invariant
            cur <= n,
            n == s@.len(),
            parse_table(s@, 0) == match parse_table(s@, cur as int) {
                Some(ls) => Some(views2_of(acc@) + ls),
                None => None::<Seq<Seq<Seq<char>>>>,
            },
        decreases n - cur,
    {
        if cur >= n {
            proof {
                assert(views2_of(acc@) + Seq::<Seq<Seq<char>>>::empty() =~= views2_of(acc@));
            }
            return Some(acc);
        }
        let line = match take_line(s, cur) {
            Some(p) => p,
            None => {
                return None;
            },
        };
        proof {
            if let Some(ls1) = parse_table(s@, line.1 as int) {
                assert(views2_of(acc@) + (seq![views_of(line.0@)] + ls1) =~= views2_of(acc@.push(line.0)) + ls1);
            }
        }
        let k = line.1;
        acc.push(line.0);
        cur = k;
    }
}

/// The on-disk form of a whole table.
pub fn encode_table_exec(ls: &Vec<Vec<Vec<char>>>) -> (out: Vec<char>)
    ensures
        out@ == encode_table(views2_of(ls@)),
{
    let mut out: Vec<char> = Vec::new();
    let n = ls.len();
    let mut i: usize = 0;
    proof {
        assert(views2_of(ls@).subrange(0, 0) =~= Seq::<Seq<Seq<char>>>::empty());
    }
    while i < n
        invariant
            i <= n,
            n == ls@.len(),
            out@ == encode_table(views2_of(ls@).subrange(0, i as int)),
        decreases n - i,
    {
        push_encoded_line(&mut out, &ls[i]);
        out.push('\n');
        proof {
            let pre = views2_of(ls@).subrange(0, i as int);
            assert(views2_of(ls@).subrange(0, i as int + 1) =~= pre.push(views_of(ls@[i as int]@)));
            lemma_encode_table_snoc(pre, views_of(ls@[i as int]@));
            assert(out@ =~= encode_table(views2_of(ls@).subrange(0, i as int + 1)));
        }
        i = i + 1;
    }
    proof {
        assert(views2_of(ls@).subrange(0, n as int) =~= views2_of(ls@));
    }
    out
}

} // verus!
