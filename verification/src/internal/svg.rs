use vstd::prelude::*;

verus! {

/// `c` has the Unicode `White_Space` property, which `str::trim` strips.
pub open spec fn white_space(c: char) -> bool {
    let v = c as u32;
    ||| 0x9 <= v <= 0xD
    ||| v == 0x20
    ||| v == 0x85
    ||| v == 0xA0
    ||| v == 0x1680
    ||| 0x2000 <= v <= 0x200A
    ||| v == 0x2028
    ||| v == 0x2029
    ||| v == 0x202F
    ||| v == 0x205F
    ||| v == 0x3000
}

fn is_white_space(c: char) -> (r: bool)
    ensures
        r == white_space(c),
{
    let v = c as u32;
    (0x9 <= v && v <= 0xD) || v == 0x20 || v == 0x85 || v == 0xA0 || v == 0x1680 || (0x2000 <= v
        && v <= 0x200A) || v == 0x2028 || v == 0x2029 || v == 0x202F || v == 0x205F || v == 0x3000
}

/// `s` without the white space at either end.
pub open spec fn trim(s: Seq<char>) -> Seq<char>
    decreases s.len(),
{
    if s.len() == 0 {
        s
    } else if white_space(s[0]) {
        trim(s.drop_first())
    } else if white_space(s.last()) {
        trim(s.drop_last())
    } else {
        s
    }
}

pub proof fn lemma_trim_ends(s: Seq<char>)
    ensures
        trim(s).len() > 0 ==> !white_space(trim(s)[0]) && !white_space(trim(s).last()),
        exists|a: int, b: int| 0 <= a <= b <= s.len() && trim(s) == s.subrange(a, b),
    decreases s.len(),
{
    if s.len() == 0 {
        assert(trim(s) == s.subrange(0, 0));
    } else if white_space(s[0]) {
        lemma_trim_ends(s.drop_first());
        let (a, b) = choose|a: int, b: int|
            0 <= a <= b <= s.drop_first().len() && trim(s.drop_first()) == s.drop_first().subrange(a, b);
        assert(s.drop_first().subrange(a, b) =~= s.subrange(a + 1, b + 1));
    } else if white_space(s.last()) {
        lemma_trim_ends(s.drop_last());
        let (a, b) = choose|a: int, b: int|
            0 <= a <= b <= s.drop_last().len() && trim(s.drop_last()) == s.drop_last().subrange(a, b);
        assert(s.drop_last().subrange(a, b) =~= s.subrange(a, b));
    } else {
        assert(s.subrange(0, s.len() as int) =~= s);
    }
}

/// Trims the white space at either end of `text`.
fn trim_string(text: &String) -> (r: String)
    ensures
        r@ == trim(text@),
{
    let t = text.as_str();
    let len = t.unicode_len();
    let mut a: usize = 0;
    let mut b: usize = len;
    assert(text@.subrange(0, len as int) =~= text@);
    while a < b && is_white_space(t.get_char(a))
        invariant
            t@ == text@,
            len == text@.len(),
            a <= b <= len,
            b == len,
            trim(text@) == trim(text@.subrange(a as int, b as int)),
        decreases b - a,
    {
        let ghost u = text@.subrange(a as int, b as int);
        assert(u.drop_first() =~= text@.subrange(a + 1, b as int));
        a = a + 1;
    }
    while a < b && is_white_space(t.get_char(b - 1))
        invariant
            t@ == text@,
            len == text@.len(),
            a <= b <= len,
            a < b ==> !white_space(text@[a as int]),
            trim(text@) == trim(text@.subrange(a as int, b as int)),
        decreases b - a,
    {
        let ghost u = text@.subrange(a as int, b as int);
        assert(u.drop_last() =~= text@.subrange(a as int, b - 1));
        assert(u[0] == text@[a as int]);
        b = b - 1;
    }
    proof {
        let u = text@.subrange(a as int, b as int);
        if a < b {
            assert(u[0] == text@[a as int]);
            assert(u.last() == text@[b - 1]);
        }
    }
    String::from_str(t.substring_char(a, b))
}

/// The state of `split_line` while it reads a line: the fields read so far,
/// the field being read, whether it is inside quotes and whether the last
/// backslash still escapes.
pub type CsvState = (Seq<Seq<char>>, Seq<char>, bool, bool);

/// One step of `split_line` on the character `c`.
pub open spec fn csv_step(st: CsvState, c: char) -> CsvState {
    let (fields, temp, in_quotes, escaped) = st;
    if c == '"' && !escaped {
        (fields, temp, !in_quotes, escaped)
    } else if c == '\\' && !escaped {
        (fields, temp, in_quotes, true)
    } else {
        let escaped2 = if c == '"' || c == '\\' { false } else { escaped };
        if c == ',' && !in_quotes {
            (fields.push(trim(temp)), Seq::empty(), in_quotes, escaped2)
        } else if (c == '\r' || c == '\t') && !in_quotes {
            (fields, temp, in_quotes, escaped2)
        } else {
            (fields, temp.push(c), in_quotes, escaped2)
        }
    }
}

/// The state of `split_line` after reading `line`.
pub open spec fn csv_run(line: Seq<char>) -> CsvState
    decreases line.len(),
{
    if line.len() == 0 {
        (Seq::empty(), Seq::empty(), false, false)
    } else {
        csv_step(csv_run(line.drop_last()), line.last())
    }
}

/// The fields of the comma separated `line`.
pub open spec fn split_line_spec(line: Seq<char>) -> Seq<Seq<char>> {
    let st = csv_run(line);
    st.0.push(trim(st.1))
}

/// No field read so far begins or ends with white space.
pub open spec fn fields_trimmed(fields: Seq<Seq<char>>) -> bool {
    forall|k: int|
        0 <= k < fields.len() ==> (#[trigger] fields[k]).len() > 0 ==> !white_space(fields[k][0]) && !white_space(
            fields[k].last(),
        )
}

proof fn lemma_csv_run_trimmed(line: Seq<char>)
    ensures
        fields_trimmed(csv_run(line).0),
    decreases line.len(),
{
    if line.len() > 0 {
        let st = csv_run(line.drop_last());
        lemma_csv_run_trimmed(line.drop_last());
        lemma_trim_ends(st.1);
        let next = csv_step(st, line.last());
        assert forall|k: int| 0 <= k < next.0.len() implies (#[trigger] next.0[k]).len() > 0 ==> !white_space(next.0[k][0])
            && !white_space(next.0[k].last()) by {
            if k < st.0.len() {
                assert(next.0[k] == st.0[k]);
            }
        }
    }
}

/// No field that `split_line` reads begins or ends with white space.
pub proof fn lemma_split_line_fields_trimmed(line: Seq<char>)
    ensures
        fields_trimmed(split_line_spec(line)),
{
    lemma_csv_run_trimmed(line);
    let st = csv_run(line);
    lemma_trim_ends(st.1);
    let r = split_line_spec(line);
    assert forall|k: int| 0 <= k < r.len() implies (#[trigger] r[k]).len() > 0 ==> !white_space(r[k][0]) && !white_space(
        r[k].last(),
    ) by {
        if k < st.0.len() {
            assert(r[k] == st.0[k]);
        }
    }
}

/// Splits one line of comma separated values into its fields. A comma outside
/// quotes ends a field; quotes toggle quoting and are dropped; a backslash
/// escapes the next quote or backslash and is dropped; carriage returns and
/// tabs outside quotes are dropped; each field is trimmed of white space.
pub fn split_line(line: &str) -> (r: Vec<String>)
    ensures
        r@.map_values(|f: String| f@) == split_line_spec(line@),
        r@.len() >= 1,
{
    let len = line.unicode_len();
    let mut temp = String::new();
    let mut total: Vec<String> = Vec::new();
    let mut in_quotes = false;
    let mut escaped = false;
    let mut i: usize = 0;
    while i < len
        invariant
            len == line@.len(),
            i <= len,
            csv_run(line@.subrange(0, i as int)) == (total@.map_values(|f: String| f@), temp@, in_quotes, escaped),
        decreases len - i,
    {
        let ghost before = (total@.map_values(|f: String| f@), temp@, in_quotes, escaped);
        let ghost pre = line@.subrange(0, i as int);
        assert(line@.subrange(0, i + 1).drop_last() =~= pre);
        assert(line@.subrange(0, i + 1).last() == line@[i as int]);
        let c = line.get_char(i);
        i = i + 1;
        if c == '"' {
            if !escaped {
                in_quotes = !in_quotes;
                continue;
            } else {
                escaped = false;
            }
        }
        if c == '\\' {
            if !escaped {
                escaped = true;
                continue;
            } else {
                escaped = false;
            }
        }
        if c == ',' && !in_quotes {
            let field = trim_string(&temp);
            let ghost old_total = total@;
            total.push(field);
            assert(total@.map_values(|f: String| f@) =~= old_total.map_values(|f: String| f@).push(trim(before.1)));
            temp = String::new();
            continue;
        }
        if (c == '\r' || c == '\t') && !in_quotes {
            continue;
        }
        temp.append(line.substring_char(i - 1, i));
        assert(temp@ =~= before.1.push(c));
    }
    assert(line@.subrange(0, len as int) =~= line@);
    let field = trim_string(&temp);
    let ghost old_total = total@;
    total.push(field);
    assert(total@.map_values(|f: String| f@) =~= old_total.map_values(|f: String| f@).push(trim(temp@)));
    total
}


/// Inside quotes, characters other than quotes and backslashes are added to
/// the field as they are, commas, carriage returns and tabs included.
proof fn lemma_csv_run_quoted(pre: Seq<char>, q: Seq<char>)
    requires
        csv_run(pre).2,
        !csv_run(pre).3,
        forall|i: int| 0 <= i < q.len() ==> q[i] != '"' && q[i] != '\\',
    ensures
        csv_run(pre + q) == (csv_run(pre).0, csv_run(pre).1 + q, true, false),
    decreases q.len(),
{
    if q.len() == 0 {
        assert(pre + q =~= pre);
        assert(csv_run(pre).1 + q =~= csv_run(pre).1);
    } else {
        let q0 = q.drop_last();
        lemma_csv_run_quoted(pre, q0);
        assert((pre + q).drop_last() =~= pre + q0);
        assert((pre + q).last() == q[q.len() - 1]);
        assert(csv_run(pre).1 + q0 + seq![q.last()] =~= csv_run(pre).1 + q);
        assert((csv_run(pre).1 + q0).push(q.last()) =~= csv_run(pre).1 + q);
    }
}

/// Quoting does not depend on where the field stands: after any start of a
/// line that ends outside quotes and not after a backslash, a comma and a
/// quoted field `q` without quotes and backslashes read as one more field, `q`
/// trimmed, with its commas, carriage returns and tabs kept.
pub proof fn lemma_quoted_field_after_comma(p: Seq<char>, q: Seq<char>)
    requires
        !csv_run(p).2,
        !csv_run(p).3,
        forall|i: int| 0 <= i < q.len() ==> q[i] != '"' && q[i] != '\\',
    ensures
        split_line_spec(p + seq![','] + seq!['"'] + q + seq!['"']) == split_line_spec(p).push(trim(q)),
{
    let st = csv_run(p);
    let a = p + seq![','];
    assert(a.drop_last() =~= p);
    assert(csv_run(a) == (st.0.push(trim(st.1)), Seq::<char>::empty(), false, false));
    let b = a + seq!['"'];
    assert(b.drop_last() =~= a);
    assert(csv_run(b) == (st.0.push(trim(st.1)), Seq::<char>::empty(), true, false));
    lemma_csv_run_quoted(b, q);
    let c = b + q;
    assert(Seq::<char>::empty() + q =~= q);
    assert(csv_run(c) == (st.0.push(trim(st.1)), q, true, false));
    let d = c + seq!['"'];
    assert(d.drop_last() =~= c);
    assert(csv_run(d) == (st.0.push(trim(st.1)), q, false, false));
    assert(p + seq![','] + seq!['"'] + q + seq!['"'] =~= d);
}

/// A backslash makes the quote or backslash after it part of the field, in or
/// out of quotes, where the backslash itself is not escaped.
pub proof fn lemma_escaped_char_kept(p: Seq<char>, c: char)
    requires
        !csv_run(p).3,
        c == '"' || c == '\\',
    ensures
        csv_run(p + seq!['\\', c]) == (csv_run(p).0, csv_run(p).1.push(c), csv_run(p).2, false),
{
    let a = p + seq!['\\'];
    assert(a.drop_last() =~= p);
    assert(a.last() == '\\');
    let b = p + seq!['\\', c];
    assert(b.drop_last() =~= a);
    assert(b.last() == c);
    let st = csv_run(p);
    assert(csv_run(a) == csv_step(st, '\\'));
    assert(csv_run(a) == (st.0, st.1, st.2, true));
    assert(csv_run(b) == csv_step(csv_run(a), c));
}

/// The pieces of `s` between the occurrences of `sep`, read from the left, as
/// `str::split` gives them.
pub open spec fn split_char(s: Seq<char>, sep: char) -> Seq<Seq<char>>
    decreases s.len(),
{
    if s.len() == 0 {
        seq![Seq::empty()]
    } else if s[0] == sep {
        seq![Seq::empty()] + split_char(s.skip(1), sep)
    } else {
        let r = split_char(s.skip(1), sep);
        r.update(0, seq![s[0]] + r[0])
    }
}

pub proof fn lemma_split_char_nonempty(s: Seq<char>, sep: char)
    ensures
        split_char(s, sep).len() >= 1,
    decreases s.len(),
{
    if s.len() > 0 {
        lemma_split_char_nonempty(s.skip(1), sep);
    }
}

/// Splits `text` at every `sep`.
fn split_at_char(text: &str, sep: char) -> (r: Vec<String>)
    ensures
        r@.map_values(|p: String| p@) == split_char(text@, sep),
{
    let len = text.unicode_len();
    let ghost s = text@;
    let mut parts: Vec<String> = Vec::new();
    let mut start: usize = 0;
    let mut i: usize = 0;
    proof {
        lemma_split_char_nonempty(s, sep);
        assert(s.skip(0) =~= s);
    }
    while i < len
        invariant
            text@ == s,
            len == s.len(),
            start <= i <= len,
            ({
                let t = split_char(s.skip(i as int), sep);
                &&& t.len() >= 1
                &&& parts@.map_values(|p: String| p@) + seq![s.subrange(start as int, i as int) + t[0]]
                    + t.drop_first() == split_char(s, sep)
            }),
        decreases len - i,
    {
        let ghost rest = s.skip(i as int);
        let ghost cur = s.subrange(start as int, i as int);
        if text.get_char(i) == sep {
            let piece = String::from_str(text.substring_char(start, i));
            let ghost old_parts = parts@.map_values(|p: String| p@);
            parts.push(piece);
            proof {
                let t2 = split_char(s.skip(i + 1), sep);
                lemma_split_char_nonempty(s.skip(i + 1), sep);
                assert(rest.skip(1) =~= s.skip(i + 1));
                assert(split_char(rest, sep) == seq![Seq::<char>::empty()] + t2);
                assert(parts@.map_values(|p: String| p@) =~= old_parts.push(cur));
                assert(s.subrange((i + 1) as int, (i + 1) as int) =~= Seq::<char>::empty());
                assert((seq![Seq::<char>::empty()] + t2).drop_first() =~= t2);
                assert(seq![Seq::<char>::empty() + t2[0]] + t2.drop_first() =~= t2);
                assert(old_parts + seq![cur + Seq::<char>::empty()] + t2 =~= old_parts.push(cur) + t2);
            }
            i = i + 1;
            start = i;
        } else {
            proof {
                let r = split_char(s.skip(i + 1), sep);
                lemma_split_char_nonempty(s.skip(i + 1), sep);
                assert(rest.skip(1) =~= s.skip(i + 1));
                assert(rest[0] == s[i as int]);
                assert(split_char(rest, sep) == r.update(0, seq![s[i as int]] + r[0]));
                assert(s.subrange(start as int, i + 1) =~= cur.push(s[i as int]));
                assert(cur + (seq![s[i as int]] + r[0]) =~= cur.push(s[i as int]) + r[0]);
                assert(r.update(0, seq![s[i as int]] + r[0]).drop_first() =~= r.drop_first());
            }
            i = i + 1;
        }
    }
    let ghost old_parts = parts@.map_values(|p: String| p@);
    let piece = String::from_str(text.substring_char(start, len));
    parts.push(piece);
    proof {
        assert(s.skip(len as int) =~= Seq::<char>::empty());
        assert(split_char(Seq::<char>::empty(), sep) == seq![Seq::<char>::empty()]);
        assert(parts@.map_values(|p: String| p@) =~= old_parts.push(s.subrange(start as int, len as int)));
        assert(seq![Seq::<char>::empty()].drop_first() =~= Seq::<Seq<char>>::empty());
        assert(old_parts + seq![s.subrange(start as int, len as int) + Seq::<char>::empty()] + Seq::<Seq<char>>::empty()
            =~= old_parts.push(s.subrange(start as int, len as int)));
    }
    parts
}

/// Splitting after adding one character: a separator starts a new, empty
/// piece; any other character ends the last piece.
proof fn lemma_split_char_push(s: Seq<char>, sep: char, c: char)
    ensures
        split_char(s.push(c), sep) == if c == sep {
            split_char(s, sep).push(Seq::empty())
        } else {
            let r = split_char(s, sep);
            r.update(r.len() - 1, r.last().push(c))
        },
    decreases s.len(),
{
    let t = s.push(c);
    lemma_split_char_nonempty(s, sep);
    if s.len() == 0 {
        assert(t.skip(1) =~= Seq::<char>::empty());
        assert(t[0] == c);
        assert(split_char(Seq::<char>::empty(), sep) == seq![Seq::<char>::empty()]);
        if c == sep {
            assert(split_char(t, sep) =~= seq![Seq::<char>::empty(), Seq::<char>::empty()]);
        } else {
            assert(seq![c] + Seq::<char>::empty() =~= Seq::<char>::empty().push(c));
            assert(split_char(t, sep) =~= seq![seq![c]]);
            assert(split_char(s, sep).update(0, Seq::<char>::empty().push(c)) =~= seq![seq![c]]);
        }
    } else {
        let rest = s.skip(1);
        assert(t.skip(1) =~= rest.push(c));
        assert(t[0] == s[0]);
        lemma_split_char_push(rest, sep, c);
        lemma_split_char_nonempty(rest, sep);
        let big = split_char(rest, sep);
        if s[0] == sep {
            if c == sep {
                assert(seq![Seq::<char>::empty()] + big.push(Seq::empty()) =~= (seq![Seq::<char>::empty()] + big).push(
                    Seq::empty(),
                ));
            } else {
                let q = seq![Seq::<char>::empty()] + big;
                assert(seq![Seq::<char>::empty()] + big.update(big.len() - 1, big.last().push(c)) =~= q.update(
                    q.len() - 1,
                    q.last().push(c),
                ));
            }
        } else {
            let q = big.update(0, seq![s[0]] + big[0]);
            if c == sep {
                assert(big.push(Seq::empty()).update(0, seq![s[0]] + big[0]) =~= q.push(Seq::empty()));
            } else {
                let b2 = big.update(big.len() - 1, big.last().push(c));
                if big.len() == 1 {
                    assert(seq![s[0]] + big[0].push(c) =~= (seq![s[0]] + big[0]).push(c));
                    assert(b2.update(0, seq![s[0]] + b2[0]) =~= q.update(q.len() - 1, q.last().push(c)));
                } else {
                    assert(b2.update(0, seq![s[0]] + b2[0]) =~= q.update(q.len() - 1, q.last().push(c)));
                }
            }
        }
    }
}

/// `s` without its carriage returns and tabs.
pub open spec fn without_cr_tab(s: Seq<char>) -> Seq<char>
    decreases s.len(),
{
    if s.len() == 0 {
        s
    } else if s.last() == '\r' || s.last() == '\t' {
        without_cr_tab(s.drop_last())
    } else {
        without_cr_tab(s.drop_last()).push(s.last())
    }
}

/// `s` holds neither a quote nor a backslash.
pub open spec fn plain(s: Seq<char>) -> bool {
    forall|i: int| 0 <= i < s.len() ==> s[i] != '"' && s[i] != '\\'
}

proof fn lemma_csv_run_plain(line: Seq<char>)
    requires
        plain(line),
    ensures
        ({
            let p = split_char(line, ',');
            &&& p.len() >= 1
            &&& csv_run(line).0.len() == p.len() - 1
            &&& forall|k: int| 0 <= k < p.len() - 1 ==> #[trigger] csv_run(line).0[k] == trim(without_cr_tab(p[k]))
            &&& csv_run(line).1 == without_cr_tab(p.last())
            &&& !csv_run(line).2
            &&& !csv_run(line).3
        }),
    decreases line.len(),
{
    lemma_split_char_nonempty(line, ',');
    if line.len() == 0 {
        assert(split_char(line, ',') == seq![Seq::<char>::empty()]);
    } else {
        let l0 = line.drop_last();
        let c = line.last();
        assert(line =~= l0.push(c));
        assert(plain(l0)) by {
            assert forall|i: int| 0 <= i < l0.len() implies l0[i] != '"' && l0[i] != '\\' by {
                assert(l0[i] == line[i]);
            }
        }
        assert(c == line[line.len() - 1]);
        lemma_csv_run_plain(l0);
        lemma_split_char_push(l0, ',', c);
        lemma_split_char_nonempty(l0, ',');
        let p0 = split_char(l0, ',');
        let st = csv_run(l0);
        let p = split_char(line, ',');
        if c == ',' {
            assert(p == p0.push(Seq::empty()));
            assert(without_cr_tab(Seq::<char>::empty()) == Seq::<char>::empty());
            assert forall|k: int| 0 <= k < p.len() - 1 implies #[trigger] csv_run(line).0[k] == trim(without_cr_tab(p[k])) by {
                if k < p0.len() - 1 {
                    assert(csv_run(line).0[k] == st.0[k]);
                }
            }
        } else {
            let last = p0.last().push(c);
            assert(p == p0.update(p0.len() - 1, last));
            assert(last.drop_last() =~= p0.last());
            assert forall|k: int| 0 <= k < p.len() - 1 implies #[trigger] csv_run(line).0[k] == trim(without_cr_tab(p[k])) by {
                assert(csv_run(line).0[k] == st.0[k]);
                assert(p[k] == p0[k]);
            }
        }
    }
}

/// On a line without quotes and backslashes, `split_line` splits at every
/// comma, drops the carriage returns and tabs of each field and trims it.
pub proof fn lemma_split_line_plain(line: Seq<char>)
    requires
        plain(line),
    ensures
        split_line_spec(line).len() == split_char(line, ',').len(),
        forall|k: int|
            0 <= k < split_line_spec(line).len() ==> #[trigger] split_line_spec(line)[k] == trim(
                without_cr_tab(split_char(line, ',')[k]),
            ),
{
    lemma_csv_run_plain(line);
    let st = csv_run(line);
    let p = split_char(line, ',');
    assert forall|k: int| 0 <= k < split_line_spec(line).len() implies #[trigger] split_line_spec(line)[k] == trim(
        without_cr_tab(p[k]),
    ) by {
        if k < p.len() - 1 {
            assert(split_line_spec(line)[k] == st.0[k]);
        }
    }
}

/// `s` with a carriage return put before each line feed.
pub open spec fn crlf(s: Seq<char>) -> Seq<char>
    decreases s.len(),
{
    if s.len() == 0 {
        s
    } else if s[0] == '\n' {
        seq!['\r', '\n'] + crlf(s.skip(1))
    } else {
        seq![s[0]] + crlf(s.skip(1))
    }
}

/// `s` holds no quote.
pub open spec fn unquoted(s: Seq<char>) -> bool {
    forall|i: int| 0 <= i < s.len() ==> s[i] != '"'
}

/// Every piece of `s` split at `sep` holds no quote where `s` holds none.
proof fn lemma_split_char_unquoted(s: Seq<char>, sep: char)
    requires
        unquoted(s),
    ensures
        forall|j: int| 0 <= j < split_char(s, sep).len() ==> unquoted(#[trigger] split_char(s, sep)[j]),
    decreases s.len(),
{
    if s.len() > 0 {
        let rest = s.skip(1);
        assert(unquoted(rest)) by {
            assert forall|i: int| 0 <= i < rest.len() implies rest[i] != '"' by {
                assert(rest[i] == s[i + 1]);
            }
        }
        lemma_split_char_unquoted(rest, sep);
        lemma_split_char_nonempty(rest, sep);
        let r = split_char(rest, sep);
        if s[0] != sep {
            let first = seq![s[0]] + r[0];
            assert(unquoted(r[0]));
            assert(unquoted(first)) by {
                assert forall|i: int| 0 <= i < first.len() implies first[i] != '"' by {
                    if i > 0 {
                        assert(first[i] == r[0][i - 1]);
                    }
                }
            }
            assert forall|j: int| 0 <= j < split_char(s, sep).len() implies unquoted(#[trigger] split_char(s, sep)[j]) by {
                if j > 0 {
                    assert(split_char(s, sep)[j] == r[j]);
                }
            }
        } else {
            assert forall|j: int| 0 <= j < split_char(s, sep).len() implies unquoted(#[trigger] split_char(s, sep)[j]) by {
                if j > 0 {
                    assert(split_char(s, sep)[j] == r[j - 1]);
                } else {
                    assert(split_char(s, sep)[j] == Seq::<char>::empty());
                }
            }
        }
    }
}

/// With a carriage return before each line feed, every line but the last ends
/// in a carriage return, and the lines are otherwise the same.
proof fn lemma_crlf_lines(s: Seq<char>)
    ensures
        ({
            let l = csv_lines(s);
            let l2 = csv_lines(crlf(s));
            &&& l2.len() == l.len()
            &&& forall|j: int| 0 <= j < l.len() - 1 ==> #[trigger] l2[j] == l[j].push('\r')
            &&& l2[l.len() - 1] == l[l.len() - 1]
        }),
    decreases s.len(),
{
    lemma_split_char_nonempty(s, '\n');
    if s.len() == 0 {
        assert(crlf(s) == s);
    } else {
        let rest = s.skip(1);
        let c = crlf(rest);
        lemma_crlf_lines(rest);
        lemma_split_char_nonempty(rest, '\n');
        lemma_split_char_nonempty(c, '\n');
        let r = split_char(rest, '\n');
        let r2 = split_char(c, '\n');
        let l = split_char(s, '\n');
        let l2 = split_char(crlf(s), '\n');
        if s[0] == '\n' {
            let t = seq!['\r', '\n'] + c;
            assert(crlf(s) == t);
            assert(t[0] == '\r');
            let t1 = t.skip(1);
            assert(t1 =~= seq!['\n'] + c);
            assert(t1[0] == '\n');
            assert(t1.skip(1) =~= c);
            assert(split_char(t1, '\n') == seq![Seq::<char>::empty()] + r2);
            let m = seq![Seq::<char>::empty()] + r2;
            assert(l2 == m.update(0, seq!['\r'] + m[0]));
            assert(l == seq![Seq::<char>::empty()] + r);
            assert(seq!['\r'] + Seq::<char>::empty() =~= Seq::<char>::empty().push('\r'));
            assert forall|j: int| 0 <= j < l.len() - 1 implies #[trigger] l2[j] == l[j].push('\r') by {
                if j > 0 {
                    assert(l2[j] == r2[j - 1]);
                    assert(l[j] == r[j - 1]);
                }
            }
            assert(l2[l.len() - 1] == r2[r.len() - 1]);
        } else {
            let t = seq![s[0]] + c;
            assert(crlf(s) == t);
            assert(t[0] == s[0]);
            assert(t.skip(1) =~= c);
            assert(l2 == r2.update(0, seq![s[0]] + r2[0]));
            assert(l == r.update(0, seq![s[0]] + r[0]));
            if r.len() > 1 {
                assert(seq![s[0]] + r[0].push('\r') =~= (seq![s[0]] + r[0]).push('\r'));
            }
            assert forall|j: int| 0 <= j < l.len() - 1 implies #[trigger] l2[j] == l[j].push('\r') by {
                if j > 0 {
                    assert(l2[j] == r2[j]);
                    assert(l[j] == r[j]);
                }
            }
        }
    }
}

/// Outside quotes, a carriage return at the end of a line changes none of its
/// fields.
proof fn lemma_split_line_cr(line: Seq<char>)
    requires
        unquoted(line),
    ensures
        split_line_spec(line.push('\r')) == split_line_spec(line),
{
    lemma_csv_run_unquoted(line);
    assert(line.push('\r').drop_last() =~= line);
}

proof fn lemma_csv_run_unquoted(line: Seq<char>)
    requires
        unquoted(line),
    ensures
        !csv_run(line).2,
    decreases line.len(),
{
    if line.len() > 0 {
        let l0 = line.drop_last();
        assert(unquoted(l0)) by {
            assert forall|i: int| 0 <= i < l0.len() implies l0[i] != '"' by {
                assert(l0[i] == line[i]);
            }
        }
        assert(line.last() == line[line.len() - 1]);
        lemma_csv_run_unquoted(l0);
    }
}

proof fn lemma_translations_same(l: Seq<Seq<char>>, l2: Seq<Seq<char>>, k: int, m: int)
    requires
        l2.len() == l.len(),
        m <= l.len(),
        forall|j: int| 0 <= j < l.len() ==> #[trigger] split_line_spec(l2[j]) == split_line_spec(l[j]),
    ensures
        translations_upto(l2, k, m) == translations_upto(l, k, m),
    decreases m,
{
    if m > 1 {
        lemma_translations_same(l, l2, k, m - 1);
        assert(split_line_spec(l2[m - 1]) == split_line_spec(l[m - 1]));
    }
}

/// A table without quotes whose lines end in a carriage return and a line feed
/// reads as the same table with line feeds alone: the same language column is
/// found, or none in both, reading it needs the same of the lines, and it gives
/// the same translations.
pub proof fn lemma_crlf_same_translations(csv: Seq<char>, desired: Seq<char>, fallback: Seq<char>)
    requires
        unquoted(csv),
    ensures
        ({
            let l = csv_lines(csv);
            let l2 = csv_lines(crlf(csv));
            &&& l2.len() == l.len()
            &&& language_column(split_line_spec(l2[0]), desired, fallback) == language_column(
                split_line_spec(l[0]),
                desired,
                fallback,
            )
            &&& translations_ok(crlf(csv), desired, fallback) == translations_ok(csv, desired, fallback)
            &&& forall|k: int| #[trigger] translations_upto(l2, k, l2.len() as int) == translations_upto(l, k, l.len() as int)
        }),
{
    let l = csv_lines(csv);
    let l2 = csv_lines(crlf(csv));
    lemma_crlf_lines(csv);
    lemma_split_char_nonempty(csv, '\n');
    lemma_split_char_unquoted(csv, '\n');
    assert forall|j: int| 0 <= j < l.len() implies #[trigger] split_line_spec(l2[j]) == split_line_spec(l[j]) by {
        assert(unquoted(l[j]));
        if j < l.len() - 1 {
            lemma_split_line_cr(l[j]);
        }
    }
    assert forall|k: int| #[trigger] translations_upto(l2, k, l2.len() as int) == translations_upto(l, k, l.len() as int) by {
        lemma_translations_same(l, l2, k, l.len() as int);
    }
    assert(split_line_spec(l2[0]) == split_line_spec(l[0]));
    if let Some((k, _)) = language_column(split_line_spec(l[0]), desired, fallback) {
        if translations_ok(csv, desired, fallback) {
            assert forall|j: int| 1 <= j < l2.len() implies #[trigger] split_line_spec(l2[j]).len() > k by {
                assert(split_line_spec(l2[j]) == split_line_spec(l[j]));
                assert(split_line_spec(l[j]).len() > k);
            }
        }
        if translations_ok(crlf(csv), desired, fallback) {
            assert forall|j: int| 1 <= j < l.len() implies #[trigger] split_line_spec(l[j]).len() > k by {
                assert(split_line_spec(l2[j]) == split_line_spec(l[j]));
                assert(split_line_spec(l2[j]).len() > k);
            }
        }
    }
}

/// Position of the first field equal to `target`.
pub open spec fn first_index(fields: Seq<Seq<char>>, target: Seq<char>) -> Option<int> {
    if exists|k: int| 0 <= k < fields.len() && fields[k] == target {
        Some(choose|k: int| 0 <= k < fields.len() && fields[k] == target && forall|j: int| 0 <= j < k ==> fields[j] != target)
    } else {
        None
    }
}

/// The column of the desired language in `header`, or else of the fallback
/// language, and which of the two it is.
pub open spec fn language_column(header: Seq<Seq<char>>, desired: Seq<char>, fallback: Seq<char>) -> Option<(int, Seq<char>)> {
    match first_index(header, desired) {
        Some(k) => Some((k, desired)),
        None => match first_index(header, fallback) {
            Some(k) => Some((k, fallback)),
            None => None,
        },
    }
}

/// The lines of `csv`.
pub open spec fn csv_lines(csv: Seq<char>) -> Seq<Seq<char>> {
    split_char(csv, '\n')
}

/// What `parse_translations` needs: where a language column is found, every
/// line after the header has a field in that column.
pub open spec fn translations_ok(csv: Seq<char>, desired: Seq<char>, fallback: Seq<char>) -> bool {
    let lines = csv_lines(csv);
    language_column(split_line_spec(lines[0]), desired, fallback) matches Some((k, _)) ==> forall|j: int|
        1 <= j < lines.len() ==> #[trigger] split_line_spec(lines[j]).len() > k
}

/// The key and translation that line `j` of `lines` gives for column `k`.
pub open spec fn line_pair(lines: Seq<Seq<char>>, j: int, k: int) -> (Seq<char>, Seq<char>) {
    (split_line_spec(lines[j])[0], split_line_spec(lines[j])[k])
}

/// The translations given by lines 1 to `m - 1` for column `k`, a later line
/// replacing the translation of an earlier line with the same key.
pub open spec fn translations_upto(lines: Seq<Seq<char>>, k: int, m: int) -> Map<Seq<char>, Seq<char>>
    decreases m,
{
    if m <= 1 {
        Map::empty()
    } else {
        let p = line_pair(lines, m - 1, k);
        translations_upto(lines, k, m - 1).insert(p.0, p.1)
    }
}

/// The entries hold no key twice and give exactly the translations of `map`.
pub open spec fn entries_match(entries: Seq<(String, String)>, map: Map<Seq<char>, Seq<char>>) -> bool {
    &&& forall|a: int, b: int| 0 <= a < b < entries.len() ==> entries[a].0@ != entries[b].0@
    &&& forall|a: int| 0 <= a < entries.len() ==> map.contains_key(#[trigger] entries[a].0@) && map[entries[a].0@] == entries[a].1@
    &&& forall|key: Seq<char>| map.contains_key(key) ==> exists|a: int| 0 <= a < entries.len() && #[trigger] entries[a].0@ == key
}


fn find_field(fields: &Vec<String>, target: &String) -> (r: Option<usize>)
    ensures
        r matches Some(i) ==> first_index(fields@.map_values(|f: String| f@), target@) == Some(i as int)
            && i < fields@.len(),
        r is None ==> first_index(fields@.map_values(|f: String| f@), target@) is None,
{
    let ghost fv = fields@.map_values(|f: String| f@);
    let mut i: usize = 0;
    while i < fields.len()
        invariant
            i <= fields@.len(),
            fv == fields@.map_values(|f: String| f@),
            forall|j: int| 0 <= j < i ==> fv[j] != target@,
        decreases fields@.len() - i,
    {
        if fields[i] == *target {
            proof {
                assert(fv[i as int] == target@);
                let k = choose|k: int| 0 <= k < fv.len() && fv[k] == target@ && forall|j: int| 0 <= j < k ==> fv[j] != target@;
                if k < i {
                } else if k > i {
                    assert(fv[i as int] != target@);
                }
            }
            return Some(i);
        }
        i = i + 1;
    }
    None
}

/// Reads a table of translations: the first line names the languages, each
/// later line gives a key and its translation into each language. Chooses the
/// column of `desired_language`, or else of `fallback_language`, and returns
/// the language chosen and, for each key, its translation in that column; a
/// later line replaces the translation of an earlier line with the same key.
/// The entries hold each key once.
pub fn parse_translations(csv_data: &str, desired_language: &str, fallback_language: &str) -> (r: Result<(String, Vec<(String, String)>), &'static str>)
    requires
        translations_ok(csv_data@, desired_language@, fallback_language@),
    ensures
        ({
            let lines = csv_lines(csv_data@);
            match language_column(split_line_spec(lines[0]), desired_language@, fallback_language@) {
                None => r matches Err(e) && e == "Unable to find desired nor fallback languages",
                Some((k, lang)) => r matches Ok((used, entries)) && used@ == lang && entries_match(
                    entries@,
                    translations_upto(lines, k, lines.len() as int),
                ),
            }
        }),
{
    let split = split_at_char(csv_data, '\n');
    let ghost lines = csv_lines(csv_data@);
    proof {
        lemma_split_char_nonempty(csv_data@, '\n');
        assert(split@.map_values(|p: String| p@).len() == split@.len());
    }
    let language_header = split_line(split[0].as_str());
    assert(split@[0]@ == lines[0]);
    let desired = String::from_str(desired_language);
    let fallback = String::from_str(fallback_language);
    let (language_idx, used_language): (usize, String) = match find_field(&language_header, &desired) {
        Some(first) => (first, desired),
        None => match find_field(&language_header, &fallback) {
            Some(second) => (second, fallback),
            None => {
                return Err("Unable to find desired nor fallback languages");
            },
        },
    };
    let mut stuff: Vec<(String, String)> = Vec::new();
    let mut i: usize = 1;
    while i < split.len()
        invariant
            1 <= i <= split@.len(),
            split@.map_values(|p: String| p@) == lines,
            split@.len() == lines.len(),
            language_column(split_line_spec(lines[0]), desired_language@, fallback_language@) == Some((language_idx as int, used_language@)),
            translations_ok(csv_data@, desired_language@, fallback_language@),
            lines == csv_lines(csv_data@),
            entries_match(stuff@, translations_upto(lines, language_idx as int, i as int)),
        decreases split@.len() - i,
    {
        assert(split@[i as int]@ == lines[i as int]);
        let line_text = split[i].as_str();
        assert(line_text@ == lines[i as int]);
        let extracted = split_line(line_text);
        assert(extracted@.map_values(|f: String| f@) == split_line_spec(lines[i as int]));
        assert(split_line_spec(lines[i as int]).len() > language_idx);
        assert(extracted@.map_values(|f: String| f@).len() == extracted@.len());
        let key = extracted[0].clone();
        let value = extracted[language_idx].clone();
        let ghost pair = line_pair(lines, i as int, language_idx as int);
        assert(extracted@.map_values(|f: String| f@)[0] == extracted@[0]@);
        assert(extracted@.map_values(|f: String| f@)[language_idx as int] == extracted@[language_idx as int]@);
        assert(key@ == pair.0 && value@ == pair.1);
        let ghost before = translations_upto(lines, language_idx as int, i as int);
        let ghost after = before.insert(pair.0, pair.1);
        assert(translations_upto(lines, language_idx as int, i + 1) == after);
        let mut j: usize = 0;
        while j < stuff.len()
            invariant
                j <= stuff@.len(),
                forall|a: int| 0 <= a < j ==> stuff@[a].0@ != key@,
            ensures
                j <= stuff@.len(),
                forall|a: int| 0 <= a < j ==> stuff@[a].0@ != key@,
                j < stuff@.len() ==> stuff@[j as int].0@ == key@,
            decreases stuff@.len() - j,
        {
            if stuff[j].0 == key {
                break;
            }
            j = j + 1;
        }
        let ghost old_stuff = stuff@;
        if j < stuff.len() {
            stuff.set(j, (key, value));
            proof {
                assert forall|a: int, b: int| 0 <= a < b < stuff@.len() implies stuff@[a].0@ != stuff@[b].0@ by {
                    assert(old_stuff[a].0@ != old_stuff[b].0@);
                }
                assert forall|a: int| 0 <= a < stuff@.len() implies after.contains_key(#[trigger] stuff@[a].0@)
                    && after[stuff@[a].0@] == stuff@[a].1@ by {
                    if a != j {
                        assert(old_stuff[a].0@ != old_stuff[j as int].0@);
                    }
                }
                assert forall|k2: Seq<char>| after.contains_key(k2) implies exists|a: int|
                    0 <= a < stuff@.len() && #[trigger] stuff@[a].0@ == k2 by {
                    if k2 == pair.0 {
                        assert(stuff@[j as int].0@ == k2);
                    } else {
                        let a = choose|a: int| 0 <= a < old_stuff.len() && #[trigger] old_stuff[a].0@ == k2;
                        assert(stuff@[a].0@ == k2);
                    }
                }
            }
        } else {
            stuff.push((key, value));
            proof {
                assert forall|a: int, b: int| 0 <= a < b < stuff@.len() implies stuff@[a].0@ != stuff@[b].0@ by {
                    if b < old_stuff.len() {
                        assert(old_stuff[a].0@ != old_stuff[b].0@);
                    }
                }
                assert forall|a: int| 0 <= a < stuff@.len() implies after.contains_key(#[trigger] stuff@[a].0@)
                    && after[stuff@[a].0@] == stuff@[a].1@ by {
                    if a < old_stuff.len() {
                        assert(old_stuff[a].0@ != key@);
                    }
                }
                assert forall|k2: Seq<char>| after.contains_key(k2) implies exists|a: int|
                    0 <= a < stuff@.len() && #[trigger] stuff@[a].0@ == k2 by {
                    if k2 == pair.0 {
                        assert(stuff@[old_stuff.len() as int].0@ == k2);
                    } else {
                        let a = choose|a: int| 0 <= a < old_stuff.len() && #[trigger] old_stuff[a].0@ == k2;
                        assert(stuff@[a].0@ == k2);
                    }
                }
            }
        }
        i = i + 1;
    }
    Ok((used_language, stuff))
}

} // verus!
