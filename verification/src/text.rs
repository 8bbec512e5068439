use vstd::prelude::*;

verus! {

/// `s` holds the placeholder `{}` at position `i`.
pub open spec fn placeholder_at(s: Seq<char>, i: int) -> bool {
    0 <= i && i + 1 < s.len() && s[i] == '{' && s[i + 1] == '}'
}

/// `s` holds the placeholder `{}` somewhere.
pub open spec fn has_placeholder(s: Seq<char>) -> bool {
    exists|i: int| placeholder_at(s, i)
}

/// The pieces of `s` between its placeholders `{}`, read from the left.
pub open spec fn split_placeholders(s: Seq<char>) -> Seq<Seq<char>>
    decreases s.len(),
{
    if s.len() == 0 {
        seq![Seq::empty()]
    } else if placeholder_at(s, 0) {
        seq![Seq::empty()] + split_placeholders(s.skip(2))
    } else {
        let r = split_placeholders(s.skip(1));
        r.update(0, seq![s[0]] + r[0])
    }
}

/// The number of placeholders `{}` in `s`, counted from the left without overlap.
pub open spec fn placeholder_count(s: Seq<char>) -> int {
    split_placeholders(s).len() - 1
}

/// The pieces joined again, with a placeholder between each two.
pub open spec fn join_placeholders(parts: Seq<Seq<char>>) -> Seq<char>
    decreases parts.len(),
{
    if parts.len() == 0 {
        Seq::empty()
    } else if parts.len() == 1 {
        parts[0]
    } else {
        parts[0] + seq!['{', '}'] + join_placeholders(parts.drop_first())
    }
}

pub proof fn lemma_split_nonempty(s: Seq<char>)
    ensures
        split_placeholders(s).len() >= 1,
        split_placeholders(s)[0].len() > 0 ==> s.len() > 0 && split_placeholders(s)[0][0] == s[0]
            && !placeholder_at(s, 0),
    decreases s.len(),
{
    if s.len() > 0 {
        if placeholder_at(s, 0) {
            lemma_split_nonempty(s.skip(2));
        } else {
            lemma_split_nonempty(s.skip(1));
        }
    }
}

/// Joining the pieces of `s` with placeholders gives `s` back, and no piece
/// holds a placeholder.
pub proof fn lemma_split_placeholders_join(s: Seq<char>)
    ensures
        join_placeholders(split_placeholders(s)) == s,
        forall|k: int|
            0 <= k < split_placeholders(s).len() ==> !has_placeholder(#[trigger] split_placeholders(s)[k]),
    decreases s.len(),
{
    lemma_split_nonempty(s);
    if s.len() == 0 {
        assert(!has_placeholder(Seq::<char>::empty()));
    } else if placeholder_at(s, 0) {
        let t = split_placeholders(s.skip(2));
        lemma_split_placeholders_join(s.skip(2));
        lemma_split_nonempty(s.skip(2));
        let r = seq![Seq::<char>::empty()] + t;
        assert(r.drop_first() =~= t);
        assert(join_placeholders(r) =~= Seq::<char>::empty() + seq!['{', '}'] + join_placeholders(t));
        assert(s =~= seq!['{', '}'] + s.skip(2));
        assert forall|k: int| 0 <= k < r.len() implies !has_placeholder(#[trigger] r[k]) by {
            if k == 0 {
                assert(!has_placeholder(Seq::<char>::empty()));
            } else {
                assert(r[k] == t[k - 1]);
            }
        }
    } else {
        let r = split_placeholders(s.skip(1));
        lemma_split_placeholders_join(s.skip(1));
        lemma_split_nonempty(s.skip(1));
        let first = seq![s[0]] + r[0];
        let u = r.update(0, first);
        assert(s =~= seq![s[0]] + s.skip(1));
        if r.len() == 1 {
            assert(join_placeholders(u) == first);
        } else {
            assert(u.drop_first() =~= r.drop_first());
            assert(join_placeholders(u) =~= seq![s[0]] + join_placeholders(r));
        }
        assert forall|k: int| 0 <= k < u.len() implies !has_placeholder(#[trigger] u[k]) by {
            if k == 0 {
                assert(!has_placeholder(r[0]));
                if has_placeholder(first) {
                    let i = choose|i: int| placeholder_at(first, i);
                    if i == 0 {
                        assert(first[1] == r[0][0]);
                        assert(r[0][0] == s.skip(1)[0]);
                        assert(placeholder_at(s, 0));
                    } else {
                        assert(placeholder_at(r[0], i - 1));
                    }
                }
            } else {
                assert(u[k] == r[k]);
            }
        }
    }
}

/// The pieces of `name` between its placeholders `{}`, read from the left.
pub fn split_on_placeholders(name: &String) -> (r: Vec<String>)
    ensures
        r@.map_values(|p: String| p@) == split_placeholders(name@),
{
    let text = name.as_str();
    let len = text.unicode_len();
    let ghost s = name@;
    let mut parts: Vec<String> = Vec::new();
    let mut start: usize = 0;
    let mut i: usize = 0;
    proof {
        lemma_split_nonempty(s);
        assert(s.skip(0) =~= s);
    }
    while i < len
        invariant
            text@ == s,
            len == s.len(),
            start <= i <= len,
            ({
                let t = split_placeholders(s.skip(i as int));
                &&& t.len() >= 1
                &&& parts@.map_values(|p: String| p@) + seq![s.subrange(start as int, i as int) + t[0]]
                    + t.drop_first() == split_placeholders(s)
            }),
        decreases len - i,
    {
        let ghost rest = s.skip(i as int);
        let ghost cur = s.subrange(start as int, i as int);
        proof {
            lemma_split_nonempty(rest);
        }
        if i + 1 < len && text.get_char(i) == '{' && text.get_char(i + 1) == '}' {
            let piece = String::from_str(text.substring_char(start, i));
            let ghost old_parts = parts@.map_values(|p: String| p@);
            parts.push(piece);
            proof {
                assert(placeholder_at(rest, 0));
                let t2 = split_placeholders(s.skip(i + 2));
                lemma_split_nonempty(s.skip(i + 2));
                assert(rest.skip(2) =~= s.skip(i + 2));
                assert(split_placeholders(rest) == seq![Seq::<char>::empty()] + t2);
                assert(parts@.map_values(|p: String| p@) =~= old_parts.push(cur));
                assert(s.subrange((i + 2) as int, (i + 2) as int) =~= Seq::<char>::empty());
                assert((seq![Seq::<char>::empty()] + t2).drop_first() =~= t2);
                assert(seq![Seq::<char>::empty() + t2[0]] + t2.drop_first() =~= t2);
                assert(old_parts + seq![cur + Seq::<char>::empty()] + t2 =~= old_parts.push(cur) + t2);
            }
            i = i + 2;
            start = i;
        } else {
            proof {
                assert(!placeholder_at(rest, 0));
                let r = split_placeholders(s.skip(i + 1));
                lemma_split_nonempty(s.skip(i + 1));
                assert(rest.skip(1) =~= s.skip(i + 1));
                assert(rest[0] == s[i as int]);
                assert(split_placeholders(rest) == r.update(0, seq![s[i as int]] + r[0]));
                assert(s.subrange(start as int, i + 1) =~= cur.push(s[i as int]));
                assert(cur + (seq![s[i as int]] + r[0]) =~= cur.push(s[i as int]) + r[0]);
                assert(r.update(0, seq![s[i as int]] + r[0]).drop_first() =~= r.drop_first());
            }
            i = i + 1;
        }
    }
    let ghost old_parts = parts@.map_values(|p: String| p@);
    let piece = String::from_str(text.substring_char(start, len));
    parts.push(piece);
    proof {
        assert(s.skip(len as int) =~= Seq::<char>::empty());
        assert(split_placeholders(Seq::<char>::empty()) == seq![Seq::<char>::empty()]);
        assert(s.subrange(start as int, len as int) + Seq::<char>::empty() =~= s.subrange(start as int, len as int));
        assert(parts@.map_values(|p: String| p@) =~= old_parts.push(s.subrange(start as int, len as int)));
        assert(seq![Seq::<char>::empty()].drop_first() =~= Seq::<Seq<char>>::empty());
        assert(old_parts + seq![s.subrange(start as int, len as int) + Seq::<char>::empty()] + Seq::<Seq<char>>::empty()
            =~= old_parts.push(s.subrange(start as int, len as int)));
    }
    parts
}

} // verus!
