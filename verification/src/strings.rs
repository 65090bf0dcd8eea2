//! Verified character-level string utilities: repetition, lexicographic
//! comparison, substring search, and line splitting.
use vstd::prelude::*;

verus! {

/// `unit` repeated `count` times, front to back.
pub open spec fn repeat_seq(unit: Seq<char>, count: nat) -> Seq<char>
    decreases count,
{
    if count == 0 {
        Seq::empty()
    } else {
        repeat_seq(unit, (count - 1) as nat) + unit
    }
}

/// Builds `unit` repeated `count` times.
pub fn repeat_str(unit: &str, count: usize) -> (r: String)
    ensures
        r@ == repeat_seq(unit@, count as nat),
{
    let mut out = String::new();
    let mut i: usize = 0;
    while i < count
        invariant
            i <= count,
            out@ == repeat_seq(unit@, i as nat),
        decreases count - i,
    {
        out.append(unit);
        i = i + 1;
    }
    out
}

/// Lexicographic order on character sequences, by code point; a prefix sorts
/// before its extensions.
pub open spec fn lex_le(a: Seq<char>, b: Seq<char>) -> bool
    decreases a.len(),
{
    if a.len() == 0 {
        true
    } else if b.len() == 0 {
        false
    } else if (a[0] as u32) == (b[0] as u32) {
        lex_le(a.drop_first(), b.drop_first())
    } else {
        (a[0] as u32) < (b[0] as u32)
    }
}

/// Any two sequences are ordered at least one way round.
pub proof fn lemma_lex_le_total(a: Seq<char>, b: Seq<char>)
    ensures
        lex_le(a, b) || lex_le(b, a),
    decreases a.len(),
{
    if a.len() != 0 && b.len() != 0 && (a[0] as u32) == (b[0] as u32) {
        lemma_lex_le_total(a.drop_first(), b.drop_first());
    }
}

/// The order is transitive.
pub proof fn lemma_lex_le_trans(a: Seq<char>, b: Seq<char>, c: Seq<char>)
    requires
        lex_le(a, b),
        lex_le(b, c),
    ensures
        lex_le(a, c),
    decreases a.len(),
{
    if a.len() != 0 && b.len() != 0 && c.len() != 0 {
        if (a[0] as u32) == (b[0] as u32) && (b[0] as u32) == (c[0] as u32) {
            lemma_lex_le_trans(a.drop_first(), b.drop_first(), c.drop_first());
        }
    }
}

/// Compares two strings in the order of `lex_le`.
pub fn str_lex_le(a: &str, b: &str) -> (r: bool)
    ensures
        r == lex_le(a@, b@),
{
    let a_len = a.unicode_len();
    let b_len = b.unicode_len();
    let mut i: usize = 0;
    proof {
        assert(a@.skip(0) =~= a@);
        assert(b@.skip(0) =~= b@);
    }
    loop
        invariant
            i <= a_len,
            i <= b_len,
            a_len == a@.len(),
            b_len == b@.len(),
            lex_le(a@, b@) == lex_le(a@.skip(i as int), b@.skip(i as int)),
        decreases a_len - i,
    {
        if i >= a_len {
            assert(a@.skip(i as int).len() == 0);
            return true;
        }
        if i >= b_len {
            assert(b@.skip(i as int).len() == 0);
            assert(a@.skip(i as int).len() != 0);
            return false;
        }
        let ca = a.get_char(i) as u32;
        let cb = b.get_char(i) as u32;
        assert(a@.skip(i as int)[0] == a@[i as int]);
        assert(b@.skip(i as int)[0] == b@[i as int]);
        if ca != cb {
            return ca < cb;
        }
        proof {
            assert(a@.skip(i as int).drop_first() =~= a@.skip(i + 1));
            assert(b@.skip(i as int).drop_first() =~= b@.skip(i + 1));
        }
        i = i + 1;
    }
}

/// `needle` occurs contiguously inside `hay`.
pub open spec fn is_substring(needle: Seq<char>, hay: Seq<char>) -> bool {
    exists|k: int|
        0 <= k <= hay.len() - needle.len() && #[trigger] hay.subrange(k, k + needle.len())
            == needle
}

/// Reports whether `needle` occurs contiguously inside `hay`.
pub fn str_contains(hay: &str, needle: &str) -> (r: bool)
    ensures
        r == is_substring(needle@, hay@),
{
    let n_len = needle.unicode_len();
    let h_len = hay.unicode_len();
    if n_len > h_len {
        return false;
    }
    if n_len == 0 {
        proof {
            assert(hay@.subrange(0, 0 + needle@.len() as int) =~= needle@);
        }
        return true;
    }
    let mut k: usize = 0;
    while k <= h_len - n_len
        invariant
            n_len == needle@.len(),
            h_len == hay@.len(),
            0 < n_len <= h_len,
            k <= h_len - n_len + 1,
            forall|kk: int|
                0 <= kk < k ==> #[trigger] hay@.subrange(kk, kk + needle@.len()) != needle@,
        decreases h_len - n_len + 1 - k,
    {
        let mut j: usize = 0;
        let mut matched = true;
        while j < n_len
            invariant
                n_len == needle@.len(),
                h_len == hay@.len(),
                k + n_len <= h_len,
                j <= n_len,
                matched ==> forall|jj: int| 0 <= jj < j ==> hay@[k + jj] == needle@[jj],
                !matched ==> hay@.subrange(k as int, k + needle@.len()) != needle@,
            decreases n_len - j,
        {
            if hay.get_char(k + j) != needle.get_char(j) {
                proof {
                    let sub = hay@.subrange(k as int, k + needle@.len());
                    assert(sub[j as int] == hay@[k + j]);
                }
                matched = false;
                j = n_len;
            } else {
                j = j + 1;
            }
        }
        if matched {
            proof {
                let sub = hay@.subrange(k as int, k + needle@.len());
                assert(sub =~= needle@);
            }
            return true;
        }
        k = k + 1;
    }
    return false;
}

/// Compares two strings character by character.
pub fn str_eq(a: &str, b: &str) -> (r: bool)
    ensures
        r == (a@ == b@),
{
    let a_len = a.unicode_len();
    let b_len = b.unicode_len();
    if a_len != b_len {
        return false;
    }
    let mut i: usize = 0;
    while i < a_len
        invariant
            i <= a_len,
            a_len == a@.len(),
            a_len == b_len,
            b_len == b@.len(),
            forall|j: int| 0 <= j < i ==> a@[j] == b@[j],
        decreases a_len - i,
    {
        if a.get_char(i) != b.get_char(i) {
            return false;
        }
        i = i + 1;
    }
    proof {
        assert(a@ =~= b@);
    }
    true
}

/// A base name counts as hidden when it starts with a dot.
pub open spec fn is_hidden_name(name: Seq<char>) -> bool {
    name.len() > 0 && name[0] == '.'
}

/// Reports whether `name` starts with a dot.
pub fn name_is_hidden(name: &str) -> (r: bool)
    ensures
        r == is_hidden_name(name@),
{
    if name.unicode_len() == 0 {
        false
    } else {
        name.get_char(0) == '.'
    }
}

/// A line with its terminating carriage return removed, if it has one.
pub open spec fn strip_cr(l: Seq<char>) -> Seq<char> {
    if l.len() > 0 && l.last() == '\r' {
        l.drop_last()
    } else {
        l
    }
}

/// The lines of `s` from position `i` on, with `cur` the characters read
/// since the last line break. Lines end at a line feed, which may be
/// preceded by a carriage return; the final line break is optional.
pub open spec fn lines_from(s: Seq<char>, i: int, cur: Seq<char>) -> Seq<Seq<char>>
    decreases s.len() - i,
{
    if i < 0 || i >= s.len() {
        if cur.len() == 0 {
            Seq::empty()
        } else {
            seq![cur]
        }
    } else if s[i] == '\n' {
        seq![strip_cr(cur)] + lines_from(s, i + 1, Seq::empty())
    } else {
        lines_from(s, i + 1, cur.push(s[i]))
    }
}

/// The lines of `s`.
pub open spec fn split_lines(s: Seq<char>) -> Seq<Seq<char>> {
    lines_from(s, 0, Seq::empty())
}

/// Splits `s` into its lines.
pub fn split_lines_exec(s: &str) -> (r: Vec<String>)
    ensures
        r@.map_values(|l: String| l@) == split_lines(s@),
{
    let len = s.unicode_len();
    let mut out: Vec<String> = Vec::new();
    let mut start: usize = 0;
    let mut i: usize = 0;
    proof {
        assert(s@.subrange(0, 0) =~= Seq::<char>::empty());
        assert(out@.map_values(|l: String| l@) =~= Seq::<Seq<char>>::empty());
    }
    while i < len
        invariant
            len == s@.len(),
            start <= i <= len,
            out@.map_values(|l: String| l@) + lines_from(
                s@,
                i as int,
                s@.subrange(start as int, i as int),
            ) == split_lines(s@),
        decreases len - i,
    {
        let ghost cur = s@.subrange(start as int, i as int);
        let ghost outv = out@.map_values(|l: String| l@);
        if s.get_char(i) == '\n' {
            let mut end = i;
            if end > start && s.get_char(end - 1) == '\r' {
                end = end - 1;
            }
            proof {
                assert(strip_cr(cur) =~= s@.subrange(start as int, end as int));
            }
            let line = s.substring_char(start, end).to_owned();
            out.push(line);
            start = i + 1;
            proof {
                assert(s@.subrange(start as int, i + 1) =~= Seq::<char>::empty());
                assert(out@.map_values(|l: String| l@) =~= outv + seq![strip_cr(cur)]);
                assert(outv + seq![strip_cr(cur)] + lines_from(s@, i + 1, Seq::empty())
                    =~= outv + (seq![strip_cr(cur)] + lines_from(s@, i + 1, Seq::empty())));
            }
        } else {
            proof {
                assert(cur.push(s@[i as int]) =~= s@.subrange(start as int, i + 1));
            }
        }
        i = i + 1;
    }
    if start < len {
        let ghost outv = out@.map_values(|l: String| l@);
        let ghost cur = s@.subrange(start as int, i as int);
        let line = s.substring_char(start, len).to_owned();
        out.push(line);
        proof {
            assert(out@.map_values(|l: String| l@) =~= outv + seq![cur]);
        }
    }
    out
}

/// No line-break character occurs in `s`.
pub open spec fn no_breaks(s: Seq<char>) -> bool {
    forall|i: int| 0 <= i < s.len() ==> s[i] != '\n' && s[i] != '\r'
}

/// Concatenation keeps freedom from line breaks.
pub proof fn lemma_concat_no_breaks(a: Seq<char>, b: Seq<char>)
    requires
        no_breaks(a),
        no_breaks(b),
    ensures
        no_breaks(a + b),
{
    assert forall|i: int| 0 <= i < (a + b).len() implies (a + b)[i] != '\n' && (a + b)[i]
        != '\r' by {
        if i < a.len() {
            assert((a + b)[i] == a[i]);
        } else {
            assert((a + b)[i] == b[i - a.len()]);
        }
    }
}

/// Repetition keeps freedom from line breaks.
pub proof fn lemma_repeat_no_breaks(unit: Seq<char>, count: nat)
    requires
        no_breaks(unit),
    ensures
        no_breaks(repeat_seq(unit, count)),
    decreases count,
{
    if count > 0 {
        lemma_repeat_no_breaks(unit, (count - 1) as nat);
        lemma_concat_no_breaks(repeat_seq(unit, (count - 1) as nat), unit);
    }
}

/// Line splitting ignores a prefix that reading has moved past.
proof fn lemma_lines_from_shift(s: Seq<char>, t: Seq<char>, k: int, cur: Seq<char>)
    requires
        0 <= k <= t.len(),
    ensures
        lines_from(s + t, s.len() + k, cur) == lines_from(t, k, cur),
    decreases t.len() - k,
{
    let full = s + t;
    if k == t.len() {
    } else {
        assert(full[s.len() + k] == t[k]);
        if t[k] == '\n' {
            lemma_lines_from_shift(s, t, k + 1, Seq::empty());
        } else {
            lemma_lines_from_shift(s, t, k + 1, cur.push(t[k]));
        }
    }
}

/// Reading a line free of breaks up to its line feed emits exactly that line.
pub proof fn lemma_lines_from_line(l: Seq<char>, r: Seq<char>, j: int)
    requires
        0 <= j <= l.len(),
        no_breaks(l),
    ensures
        lines_from(l + seq!['\n'] + r, j, l.take(j)) == seq![l] + lines_from(r, 0, Seq::empty()),
    decreases l.len() - j,
{
    let full = l + seq!['\n'] + r;
    if j < l.len() {
        assert(full[j] == l[j]);
        assert(l[j] != '\n');
        assert(l.take(j).push(l[j]) =~= l.take(j + 1));
        lemma_lines_from_line(l, r, j + 1);
    } else {
        assert(full[j] == '\n');
        assert(l.take(j) =~= l);
        assert(strip_cr(l) == l);
        assert((l + seq!['\n']) + r =~= full);
        lemma_lines_from_shift(l + seq!['\n'], r, 0, Seq::empty());
        assert(lines_from(full, j + 1, Seq::empty()) == lines_from(r, 0, Seq::empty()));
        assert(lines_from(full, j, l.take(j)) =~= seq![l] + lines_from(r, 0, Seq::empty()));
    }
}

} // verus!
