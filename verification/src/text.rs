//! Strings and paths: joining path components and splitting lists.
use vstd::prelude::*;

verus! {

/// The path that joining `rel` onto `base` gives on a Unix system: `rel`
/// itself where it is absolute, else `rel` after `base` with one `/` between
/// them where `base` is not empty and does not already end in `/`.
pub open spec fn joined(base: Seq<char>, rel: Seq<char>) -> Seq<char> {
    if rel.len() > 0 && rel[0] == '/' {
        rel
    } else if base.len() == 0 || base.last() == '/' {
        base + rel
    } else {
        base + seq!['/'] + rel
    }
}

/// The view of an optional string.
pub open spec fn opt_view(o: Option<String>) -> Option<Seq<char>> {
    match o {
        Some(s) => Some(s@),
        None => None,
    }
}

/// Joins the path `rel` onto the path `base`, as `Path::join` does on Unix.
pub fn join_path(base: &str, rel: &str) -> (r: String)
    ensures
        r@ == joined(base@, rel@),
{
    let rel_len = rel.unicode_len();
    if rel_len > 0 && rel.get_char(0) == '/' {
        return rel.to_owned();
    }
    let base_len = base.unicode_len();
    let mut r = base.to_owned();
    if base_len > 0 && base.get_char(base_len - 1) != '/' {
        let sep = "/";
        proof {
            reveal_strlit("/");
        }
        r.append(sep);
        assert(r@ =~= base@.push('/'));
    }
    r.append(rel);
    r
}

/// The pieces of `s` between occurrences of `sep`, as `str::split` gives
/// them: one piece more than `s` holds separators, empty pieces included.
pub open spec fn split_seq(s: Seq<char>, sep: char) -> Seq<Seq<char>>
    decreases s.len(),
{
    if s.len() == 0 {
        seq![Seq::<char>::empty()]
    } else {
        let prev = split_seq(s.drop_last(), sep);
        if s.last() == sep {
            prev.push(Seq::<char>::empty())
        } else {
            prev.update(prev.len() - 1, prev.last().push(s.last()))
        }
    }
}

proof fn lemma_split_seq_nonempty(s: Seq<char>, sep: char)
    ensures
        split_seq(s, sep).len() >= 1,
    decreases s.len(),
{
    if s.len() > 0 {
        lemma_split_seq_nonempty(s.drop_last(), sep);
    }
}

/// Whether `x` stands in `doc` as a contiguous run of characters.
pub open spec fn is_part(x: Seq<char>, doc: Seq<char>) -> bool {
    exists|i: int| 0 <= i <= doc.len() - x.len() && #[trigger] doc.subrange(i, i + x.len()) == x
}

/// A part of a part is a part.
pub proof fn lemma_is_part_transitive(x: Seq<char>, y: Seq<char>, z: Seq<char>)
    requires
        is_part(x, y),
        is_part(y, z),
    ensures
        is_part(x, z),
{
    let i = choose|i: int| 0 <= i <= y.len() - x.len() && #[trigger] y.subrange(i, i + x.len()) == x;
    let j = choose|j: int| 0 <= j <= z.len() - y.len() && #[trigger] z.subrange(j, j + y.len()) == y;
    assert(z.subrange(j + i, j + i + x.len()) =~= x);
}

/// Every piece of a split is a part of the text split, and the last piece
/// ends it.
pub proof fn lemma_split_seq_parts(s: Seq<char>, sep: char)
    ensures
        forall|i: int| 0 <= i < split_seq(s, sep).len() ==> is_part(#[trigger] split_seq(s, sep)[i], s),
        split_seq(s, sep).len() >= 1,
        split_seq(s, sep).last().len() <= s.len(),
        s.subrange(s.len() - split_seq(s, sep).last().len(), s.len() as int) == split_seq(s, sep).last(),
    decreases s.len(),
{
    lemma_split_seq_nonempty(s, sep);
    if s.len() == 0 {
        let r = split_seq(s, sep);
        assert(r[0] =~= Seq::<char>::empty());
        assert(s.subrange(0, 0int + r[0].len()) =~= r[0]);
        assert(s.subrange(0, 0) =~= r.last());
    } else {
        let d = s.drop_last();
        let prev = split_seq(d, sep);
        lemma_split_seq_parts(d, sep);
        let r = split_seq(s, sep);
        assert forall|i: int| 0 <= i < prev.len() implies is_part(#[trigger] prev[i], s) by {
            let k = choose|k: int| 0 <= k <= d.len() - prev[i].len() && #[trigger] d.subrange(k, k + prev[i].len()) == prev[i];
            assert(s.subrange(k, k + prev[i].len()) =~= d.subrange(k, k + prev[i].len()));
        }
        if s.last() == sep {
            assert(s.subrange(s.len() as int, s.len() as int) =~= r.last());
            assert forall|i: int| 0 <= i < r.len() implies is_part(#[trigger] r[i], s) by {
                if i < prev.len() {
                    assert(r[i] == prev[i]);
                } else {
                    assert(s.subrange(s.len() as int, s.len() as int + r[i].len()) =~= r[i]);
                }
            }
        } else {
            let last = prev.last().push(s.last());
            assert(r.last() == last);
            assert(s.subrange(s.len() - last.len(), s.len() as int) =~= last) by {
                assert(d.subrange(d.len() - prev.last().len(), d.len() as int) == prev.last());
            }
            assert forall|i: int| 0 <= i < r.len() implies is_part(#[trigger] r[i], s) by {
                if i < prev.len() - 1 {
                    assert(r[i] == prev[i]);
                } else {
                    assert(r[i] == last);
                    assert(s.subrange(s.len() - last.len(), s.len() - last.len() + last.len()) == last);
                }
            }
        }
    }
}

/// No piece of a split holds the separator.
pub proof fn lemma_split_seq_no_sep(s: Seq<char>, sep: char)
    ensures
        forall|i: int| 0 <= i < split_seq(s, sep).len() ==> !(#[trigger] split_seq(s, sep)[i]).contains(sep),
    decreases s.len(),
{
    if s.len() > 0 {
        let prev = split_seq(s.drop_last(), sep);
        lemma_split_seq_no_sep(s.drop_last(), sep);
        lemma_split_seq_nonempty(s.drop_last(), sep);
        let r = split_seq(s, sep);
        assert forall|i: int| 0 <= i < r.len() implies !(#[trigger] r[i]).contains(sep) by {
            if s.last() == sep {
                if i < prev.len() {
                    assert(r[i] == prev[i]);
                } else {
                    assert(r[i] =~= Seq::<char>::empty());
                }
            } else if i < prev.len() - 1 {
                assert(r[i] == prev[i]);
            } else {
                let piece = prev.last().push(s.last());
                assert(r[i] == piece);
                assert(!prev[prev.len() - 1].contains(sep));
                if piece.contains(sep) {
                    let j = choose|j: int| 0 <= j < piece.len() && piece[j] == sep;
                    if j < prev.last().len() {
                        assert(prev.last()[j] == sep);
                    }
                }
            }
        }
    }
}

/// The views of a sequence of strings.
pub open spec fn views(v: Seq<String>) -> Seq<Seq<char>> {
    v.map_values(|x: String| x@)
}

/// Splits `s` at each `sep`.
pub fn split_chars(s: &str, sep: char) -> (r: Vec<String>)
    ensures
        views(r@) == split_seq(s@, sep),
{
    let n = s.unicode_len();
    let mut parts: Vec<String> = Vec::new();
    let mut cur = String::new();
    let mut i: usize = 0;
    while i < n
        invariant
            n == s@.len(),
            i <= n,
            views(parts@).push(cur@) == split_seq(s@.take(i as int), sep),
        decreases n - i,
    {
        let c = s.get_char(i);
        proof {
            assert(s@.take(i + 1).drop_last() == s@.take(i as int));
            lemma_split_seq_nonempty(s@.take(i as int), sep);
        }
        if c == sep {
            let ghost before = views(parts@).push(cur@);
            parts.push(cur);
            cur = String::new();
            assert(views(parts@).push(cur@) =~= before.push(Seq::<char>::empty()));
        } else {
            let ghost before = views(parts@).push(cur@);
            let one = s.substring_char(i, i + 1);
            assert(one@ =~= seq![c]);
            cur.append(one);
            assert(cur@ =~= before.last().push(c));
            assert(views(parts@).push(cur@) =~= before.update(
                before.len() - 1,
                before.last().push(c),
            ));
        }
        i = i + 1;
    }
    assert(s@.take(n as int) == s@);
    let ghost before = views(parts@).push(cur@);
    parts.push(cur);
    assert(views(parts@) =~= before);
    parts
}

/// Whether `a` and `b` hold the same characters.
pub fn same_text(a: &str, b: &str) -> (r: bool)
    ensures
        r == (a@ == b@),
{
    a.to_owned() == b.to_owned()
}

/// Lexicographic order of character sequences, character by character by
/// code point, a proper prefix first: the order of `str`'s `<`.
pub open spec fn seq_less(a: Seq<char>, b: Seq<char>) -> bool
    decreases a.len(),
{
    if a.len() == 0 {
        b.len() > 0
    } else if b.len() == 0 {
        false
    } else if a[0] != b[0] {
        (a[0] as int) < (b[0] as int)
    } else {
        seq_less(a.drop_first(), b.drop_first())
    }
}

/// No sequence comes before itself.
pub proof fn lemma_seq_less_irreflexive(a: Seq<char>)
    ensures
        !seq_less(a, a),
    decreases a.len(),
{
    if a.len() > 0 {
        lemma_seq_less_irreflexive(a.drop_first());
    }
}

/// The order is transitive.
pub proof fn lemma_seq_less_transitive(a: Seq<char>, b: Seq<char>, c: Seq<char>)
    requires
        seq_less(a, b),
        seq_less(b, c),
    ensures
        seq_less(a, c),
    decreases a.len(),
{
    if a.len() > 0 && b.len() > 0 && c.len() > 0 && a[0] == b[0] && b[0] == c[0] {
        lemma_seq_less_transitive(a.drop_first(), b.drop_first(), c.drop_first());
    }
}

/// Of two different sequences, one comes first.
pub proof fn lemma_seq_less_total(a: Seq<char>, b: Seq<char>)
    requires
        a != b,
    ensures
        seq_less(a, b) || seq_less(b, a),
    decreases a.len(),
{
    if a.len() > 0 && b.len() > 0 && a[0] == b[0] {
        if a.drop_first() == b.drop_first() {
            assert(a =~= seq![a[0]] + a.drop_first());
            assert(b =~= seq![b[0]] + b.drop_first());
        }
        lemma_seq_less_total(a.drop_first(), b.drop_first());
    } else if a.len() == 0 && b.len() == 0 {
        assert(a =~= b);
    }
}

/// Whether `a` comes before `b` in lexicographic order.
pub fn str_less(a: &str, b: &str) -> (r: bool)
    ensures
        r == seq_less(a@, b@),
{
    let n = a.unicode_len();
    let m = b.unicode_len();
    let mut i: usize = 0;
    assert(a@.skip(0) =~= a@);
    assert(b@.skip(0) =~= b@);
    while i < n && i < m
        invariant
            n == a@.len(),
            m == b@.len(),
            i <= n,
            i <= m,
            seq_less(a@, b@) == seq_less(a@.skip(i as int), b@.skip(i as int)),
        decreases n - i,
    {
        let x = a.get_char(i);
        let y = b.get_char(i);
        assert(a@.skip(i as int)[0] == x);
        assert(b@.skip(i as int)[0] == y);
        if x != y {
            return (x as u32) < (y as u32);
        }
        assert(a@.skip(i as int).drop_first() =~= a@.skip(i + 1));
        assert(b@.skip(i as int).drop_first() =~= b@.skip(i + 1));
        i = i + 1;
    }
    i < m
}

/// Whether `c` has the Unicode property White_Space, as `char::is_whitespace`
/// reports.
pub open spec fn white_space(c: char) -> bool {
    let n = c as u32;
    ||| 0x09 <= n <= 0x0d
    ||| n == 0x20
    ||| n == 0x85
    ||| n == 0xa0
    ||| n == 0x1680
    ||| 0x2000 <= n <= 0x200a
    ||| n == 0x2028
    ||| n == 0x2029
    ||| n == 0x202f
    ||| n == 0x205f
    ||| n == 0x3000
}

/// Whether `c` is white space.
pub fn is_white_space(c: char) -> (r: bool)
    ensures
        r == white_space(c),
{
    let n = c as u32;
    (0x09 <= n && n <= 0x0d) || n == 0x20 || n == 0x85 || n == 0xa0 || n == 0x1680 || (0x2000 <= n && n
        <= 0x200a) || n == 0x2028 || n == 0x2029 || n == 0x202f || n == 0x205f || n == 0x3000
}

/// `s` without its leading white space.
pub open spec fn trim_start_seq(s: Seq<char>) -> Seq<char>
    decreases s.len(),
{
    if s.len() > 0 && white_space(s[0]) {
        trim_start_seq(s.drop_first())
    } else {
        s
    }
}

/// `s` without its trailing white space.
pub open spec fn trim_end_seq(s: Seq<char>) -> Seq<char>
    decreases s.len(),
{
    if s.len() > 0 && white_space(s.last()) {
        trim_end_seq(s.drop_last())
    } else {
        s
    }
}

/// `s` without leading and trailing white space, as `str::trim` gives it.
pub open spec fn trimmed(s: Seq<char>) -> Seq<char> {
    trim_end_seq(trim_start_seq(s))
}

proof fn lemma_trim_start_skip(s: Seq<char>, i: int)
    requires
        0 <= i <= s.len(),
        forall|j: int| 0 <= j < i ==> white_space(#[trigger] s[j]),
    ensures
        trim_start_seq(s) == trim_start_seq(s.skip(i)),
    decreases i,
{
    if i > 0 {
        assert(s.skip(1) =~= s.drop_first());
        lemma_trim_start_skip(s.drop_first(), i - 1);
        assert(s.drop_first().skip(i - 1) =~= s.skip(i));
    } else {
        assert(s.skip(0) =~= s);
    }
}

proof fn lemma_trim_end_take(s: Seq<char>, i: int)
    requires
        0 <= i <= s.len(),
        forall|j: int| i <= j < s.len() ==> white_space(#[trigger] s[j]),
    ensures
        trim_end_seq(s) == trim_end_seq(s.take(i)),
    decreases s.len() - i,
{
    if i < s.len() {
        lemma_trim_end_take(s.drop_last(), i);
        assert(s.drop_last().take(i) =~= s.take(i));
    } else {
        assert(s.take(i) =~= s);
    }
}

/// Whether `t` is `s` with its white space cut off both ends: `s` is `t`
/// with only white space before and after it, and `t` neither starts nor ends
/// with white space.
pub open spec fn trims_to(s: Seq<char>, t: Seq<char>) -> bool {
    exists|i: int, j: int|
        0 <= i <= j <= s.len() && #[trigger] s.subrange(i, j) == t && (forall|k: int|
            0 <= k < i ==> white_space(#[trigger] s[k])) && (forall|k: int| j <= k < s.len() ==> white_space(#[trigger] s[k]))
            && (i == j || (!white_space(s[i]) && !white_space(s[j - 1])))
}

proof fn lemma_trim_start_shape(s: Seq<char>) -> (i: int)
    ensures
        0 <= i <= s.len(),
        forall|k: int| 0 <= k < i ==> white_space(#[trigger] s[k]),
        trim_start_seq(s) == s.skip(i),
        i == s.len() || !white_space(s[i]),
    decreases s.len(),
{
    if s.len() > 0 && white_space(s[0]) {
        let i0 = lemma_trim_start_shape(s.drop_first());
        assert forall|k: int| 0 <= k < i0 + 1 implies white_space(#[trigger] s[k]) by {
            if k > 0 {
                assert(s[k] == s.drop_first()[k - 1]);
            }
        }
        assert(s.drop_first().skip(i0) =~= s.skip(i0 + 1));
        if i0 < s.drop_first().len() {
            assert(s[i0 + 1] == s.drop_first()[i0]);
        }
        i0 + 1
    } else {
        assert(s.skip(0) =~= s);
        0
    }
}

proof fn lemma_trim_end_shape(s: Seq<char>) -> (j: int)
    ensures
        0 <= j <= s.len(),
        forall|k: int| j <= k < s.len() ==> white_space(#[trigger] s[k]),
        trim_end_seq(s) == s.take(j),
        j == 0 || !white_space(s[j - 1]),
    decreases s.len(),
{
    if s.len() > 0 && white_space(s.last()) {
        let j0 = lemma_trim_end_shape(s.drop_last());
        assert forall|k: int| j0 <= k < s.len() implies white_space(#[trigger] s[k]) by {
            if k < s.len() - 1 {
                assert(s[k] == s.drop_last()[k]);
            }
        }
        assert(s.drop_last().take(j0) =~= s.take(j0));
        if j0 > 0 {
            assert(s[j0 - 1] == s.drop_last()[j0 - 1]);
        }
        j0
    } else {
        assert(s.take(s.len() as int) =~= s);
        s.len() as int
    }
}

/// `trimmed` cuts the white space off both ends of a text, and nothing else.
pub proof fn lemma_trimmed_shape(s: Seq<char>)
    ensures
        trims_to(s, trimmed(s)),
{
    let i = lemma_trim_start_shape(s);
    let rest = s.skip(i);
    let j = lemma_trim_end_shape(rest);
    assert(trimmed(s) == rest.take(j));
    assert(s.subrange(i, i + j) =~= rest.take(j));
    assert forall|k: int| i + j <= k < s.len() implies white_space(#[trigger] s[k]) by {
        assert(s[k] == rest[k - i]);
    }
    if j > 0 {
        assert(s[i] == rest[0]);
        assert(s[i + j - 1] == rest[j - 1]);
    }
}

/// `s` without leading and trailing white space.
pub fn trim(s: &str) -> (r: String)
    ensures
        r@ == trimmed(s@),
{
    let n = s.unicode_len();
    let mut start: usize = 0;
    while start < n && is_white_space(s.get_char(start))
        invariant
            n == s@.len(),
            start <= n,
            forall|j: int| 0 <= j < start ==> white_space(#[trigger] s@[j]),
        decreases n - start,
    {
        start = start + 1;
    }
    proof {
        lemma_trim_start_skip(s@, start as int);
    }
    let ghost rest = s@.skip(start as int);
    assert(start < n ==> !white_space(rest[0]));
    assert(trim_start_seq(rest) == rest);
    let mut end: usize = n;
    while end > start && is_white_space(s.get_char(end - 1))
        invariant
            n == s@.len(),
            start <= end <= n,
            forall|j: int| end <= j < n ==> white_space(#[trigger] s@[j]),
        decreases end,
    {
        end = end - 1;
    }
    proof {
        let k = (end - start) as int;
        assert forall|j: int| k <= j < rest.len() implies white_space(#[trigger] rest[j]) by {
            assert(rest[j] == s@[start + j]);
        }
        lemma_trim_end_take(rest, k);
        assert(rest.take(k) =~= s@.subrange(start as int, end as int));
        if k > 0 {
            assert(s@.subrange(start as int, end as int).last() == s@[end - 1]);
        }
    }
    s.substring_char(start, end).to_owned()
}

/// The part of `s` after `prefix`, where `s` starts with `prefix`.
pub fn strip_prefix(s: &str, prefix: &str) -> (r: Option<String>)
    ensures
        match r {
            Some(rest) => prefix@.len() <= s@.len() && s@.take(prefix@.len() as int) == prefix@ && rest@ == s@.skip(
                prefix@.len() as int,
            ),
            None => !(prefix@.len() <= s@.len() && s@.take(prefix@.len() as int) == prefix@),
        },
{
    let n = s.unicode_len();
    let m = prefix.unicode_len();
    if m > n {
        return None;
    }
    let head = s.substring_char(0, m);
    if !same_text(head, prefix) {
        return None;
    }
    Some(s.substring_char(m, n).to_owned())
}

} // verus!
