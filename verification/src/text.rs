//! Byte strings as text: white space, fields, lines.
use vstd::prelude::*;
use vstd::slice::slice_subrange;
use vstd::slice::slice_to_vec;

verus! {

/// ASCII white space: space, tab, line feed, vertical tab, form feed, carriage return.
pub open spec fn is_space(b: u8) -> bool {
    b == 32 || (9 <= b && b <= 13)
}

/// A non-empty byte string that holds no white space.
pub open spec fn is_token(s: Seq<u8>) -> bool {
    s.len() > 0 && forall|i: int| 0 <= i < s.len() ==> !is_space(#[trigger] s[i])
}

/// The views of the byte strings in `v`, in order.
pub open spec fn views(v: Seq<Vec<u8>>) -> Seq<Seq<u8>> {
    Seq::new(v.len(), |i: int| v[i]@)
}

/// The first index at or after `i` that holds white space, or the length.
pub open spec fn word_end(s: Seq<u8>, i: int) -> int
    decreases s.len() - i,
{
    if 0 <= i < s.len() && !is_space(s[i]) {
        word_end(s, i + 1)
    } else {
        i
    }
}

/// The maximal runs of bytes that are not white space, from index `i` on.
pub open spec fn fields_from(s: Seq<u8>, i: int) -> Seq<Seq<u8>>
    decreases s.len() - i,
{
    if i < 0 || i >= s.len() {
        Seq::empty()
    } else if is_space(s[i]) {
        fields_from(s, i + 1)
    } else {
        let e = word_end(s, i);
        if e <= i || e > s.len() {
            Seq::empty()
        } else {
            seq![s.subrange(i, e)] + fields_from(s, e)
        }
    }
}

/// The white-space separated fields of `s`.
pub open spec fn fields(s: Seq<u8>) -> Seq<Seq<u8>> {
    fields_from(s, 0)
}

/// The index of the first line feed at or after `i`, or the length.
pub open spec fn line_end(s: Seq<u8>, i: int) -> int
    decreases s.len() - i,
{
    if 0 <= i < s.len() && s[i] != 10 {
        line_end(s, i + 1)
    } else {
        i
    }
}

/// The lines of `s` from index `i` on, without their line feeds. A final
/// line need not end in a line feed; nothing follows a final line feed.
pub open spec fn lines_from(s: Seq<u8>, i: int) -> Seq<Seq<u8>>
    decreases s.len() - i,
{
    if i < 0 || i >= s.len() {
        Seq::empty()
    } else {
        let e = line_end(s, i);
        if e < i || e > s.len() {
            Seq::empty()
        } else if e == s.len() {
            seq![s.subrange(i, e)]
        } else {
            seq![s.subrange(i, e)] + lines_from(s, e + 1)
        }
    }
}

/// The lines of `s`.
pub open spec fn lines(s: Seq<u8>) -> Seq<Seq<u8>> {
    lines_from(s, 0)
}

/// `b` in lower case where it is an ASCII capital, else `b`.
pub open spec fn lower(b: u8) -> u8 {
    if 65 <= b && b <= 90 {
        (b + 32) as u8
    } else {
        b
    }
}

/// `s` with every ASCII capital in lower case.
pub open spec fn lowered(s: Seq<u8>) -> Seq<u8> {
    Seq::new(s.len(), |i: int| lower(s[i]))
}

/// Where the line that starts at `i` ends, and that no line feed stands
/// before its end.
pub proof fn lemma_line_end_bounds(s: Seq<u8>, i: int)
    requires
        0 <= i <= s.len(),
    ensures
        i <= line_end(s, i) <= s.len(),
        forall|k: int| i <= k < line_end(s, i) ==> #[trigger] s[k] != 10,
        line_end(s, i) < s.len() ==> s[line_end(s, i)] == 10,
    decreases s.len() - i,
{
    if i < s.len() && s[i] != 10 {
        lemma_line_end_bounds(s, i + 1);
    }
}

/// A word that stands between `i` and `e` ends at `e`.
pub proof fn lemma_word_end_is(s: Seq<u8>, i: int, e: int)
    requires
        0 <= i <= e <= s.len(),
        forall|k: int| i <= k < e ==> !is_space(#[trigger] s[k]),
        e < s.len() ==> is_space(s[e]),
    ensures
        word_end(s, i) == e,
    decreases e - i,
{
    if i < e {
        lemma_word_end_is(s, i + 1, e);
    }
}

/// A line that stands between `i` and `e` ends at `e`.
pub proof fn lemma_line_end_is(s: Seq<u8>, i: int, e: int)
    requires
        0 <= i <= e <= s.len(),
        forall|k: int| i <= k < e ==> #[trigger] s[k] != 10,
        e < s.len() ==> s[e] == 10,
    ensures
        line_end(s, i) == e,
    decreases e - i,
{
    if i < e {
        lemma_line_end_is(s, i + 1, e);
    }
}

/// Where the token `w` stands at `i`, followed by white space or by the end,
/// the fields from `i` on are `w` and the fields after it.
pub proof fn lemma_fields_token(s: Seq<u8>, i: int, w: Seq<u8>)
    requires
        0 <= i,
        i + w.len() <= s.len(),
        is_token(w),
        s.subrange(i, i + w.len()) == w,
        i + w.len() < s.len() ==> is_space(s[i + w.len()]),
    ensures
        fields_from(s, i) == seq![w] + fields_from(s, i + w.len()),
{
    let e = i + w.len();
    assert forall|k: int| i <= k < e implies !is_space(#[trigger] s[k]) by {
        assert(s[k] == s.subrange(i, e)[k - i]);
        assert(!is_space(w[k - i]));
    }
    lemma_word_end_is(s, i, e);
    assert(!is_space(s[i]));
}

/// Two tokens with a space between them are two fields.
pub proof fn lemma_fields_two(a: Seq<u8>, b: Seq<u8>)
    requires
        is_token(a),
        is_token(b),
    ensures
        fields(a + seq![32u8] + b) == seq![a, b],
{
    let s = a + seq![32u8] + b;
    let n = a.len() as int;
    assert(s.subrange(0, n) =~= a);
    assert(s[n] == 32u8);
    lemma_fields_token(s, 0, a);
    assert(s.subrange(n + 1, n + 1 + b.len()) =~= b);
    lemma_fields_token(s, n + 1, b);
    assert(fields_from(s, s.len() as int) =~= Seq::<Seq<u8>>::empty());
    assert(fields(s) =~= seq![a, b]);
}

/// Three tokens with a space between each two are three fields.
pub proof fn lemma_fields_three(a: Seq<u8>, b: Seq<u8>, c: Seq<u8>)
    requires
        is_token(a),
        is_token(b),
        is_token(c),
    ensures
        fields(a + seq![32u8] + b + seq![32u8] + c) == seq![a, b, c],
{
    let s = a + seq![32u8] + b + seq![32u8] + c;
    let n = a.len() as int;
    let k = n + 1 + b.len();
    assert(s.subrange(0, n) =~= a);
    assert(s[n] == 32u8);
    lemma_fields_token(s, 0, a);
    assert(s.subrange(n + 1, k) =~= b);
    assert(s[k] == 32u8);
    lemma_fields_token(s, n + 1, b);
    assert(s.subrange(k + 1, k + 1 + c.len()) =~= c);
    lemma_fields_token(s, k + 1, c);
    assert(fields_from(s, s.len() as int) =~= Seq::<Seq<u8>>::empty());
    assert(fields(s) =~= seq![a, b, c]);
}

/// Behind a prefix, a line ends where it ends without the prefix.
pub proof fn lemma_line_end_shift(a: Seq<u8>, b: Seq<u8>, j: int)
    requires
        0 <= j <= b.len(),
    ensures
        line_end(a + b, a.len() + j) == a.len() + line_end(b, j),
{
    let s = a + b;
    let e = line_end(b, j);
    lemma_line_end_bounds(b, j);
    assert forall|k: int| a.len() + j <= k < a.len() + e implies #[trigger] s[k] != 10 by {
        assert(s[k] == b[k - a.len()]);
    }
    if e < b.len() {
        assert(s[a.len() + e] == b[e]);
    }
    lemma_line_end_is(s, a.len() + j, a.len() + e);
}

/// Behind a prefix, the lines are those of the rest.
pub proof fn lemma_lines_shift(a: Seq<u8>, b: Seq<u8>, j: int)
    requires
        0 <= j <= b.len(),
    ensures
        lines_from(a + b, a.len() + j) == lines_from(b, j),
    decreases b.len() - j,
{
    let s = a + b;
    if j < b.len() {
        let e = line_end(b, j);
        lemma_line_end_bounds(b, j);
        lemma_line_end_shift(a, b, j);
        assert(s.subrange(a.len() + j, a.len() + e) =~= b.subrange(j, e));
        if e < b.len() {
            lemma_lines_shift(a, b, e + 1);
        }
    }
}

/// The lines of a text that ends in a line feed, or is empty, followed by
/// another text are the lines of the one and then the lines of the other.
pub proof fn lemma_lines_concat(a: Seq<u8>, b: Seq<u8>, i: int)
    requires
        0 <= i <= a.len(),
        a.len() > 0 ==> a[a.len() - 1] == 10,
    ensures
        lines_from(a + b, i) == lines_from(a, i) + lines_from(b, 0),
    decreases a.len() - i,
{
    let s = a + b;
    if i == a.len() {
        lemma_lines_shift(a, b, 0);
        assert(lines_from(a, i) =~= Seq::<Seq<u8>>::empty());
        assert(Seq::<Seq<u8>>::empty() + lines_from(b, 0) =~= lines_from(b, 0));
    } else {
        let e = line_end(a, i);
        lemma_line_end_bounds(a, i);
        assert(e < a.len()) by {
            if e == a.len() {
                assert(a[a.len() - 1] != 10);
            }
        }
        assert forall|k: int| i <= k < e implies #[trigger] s[k] != 10 by {
            assert(s[k] == a[k]);
        }
        assert(s[e] == a[e]);
        lemma_line_end_is(s, i, e);
        assert(s.subrange(i, e) =~= a.subrange(i, e));
        lemma_lines_concat(a, b, e + 1);
        assert(lines_from(s, i) =~= lines_from(a, i) + lines_from(b, 0));
    }
}

/// A line added to the end of a text, with its line feed, is one more line.
pub proof fn lemma_lines_push(t: Seq<u8>, body: Seq<u8>)
    requires
        t.len() > 0 ==> t[t.len() - 1] == 10,
        forall|k: int| 0 <= k < body.len() ==> #[trigger] body[k] != 10,
    ensures
        lines(t + (body + seq![10u8])) == lines(t) + seq![body],
{
    let b = body + seq![10u8];
    lemma_lines_concat(t, b, 0);
    let e = body.len() as int;
    assert forall|k: int| 0 <= k < e implies #[trigger] b[k] != 10 by {
        assert(b[k] == body[k]);
    }
    assert(b[e] == 10u8);
    lemma_line_end_is(b, 0, e);
    assert(b.subrange(0, e) =~= body);
    assert(lines_from(b, e + 1) =~= Seq::<Seq<u8>>::empty());
    assert(lines_from(b, 0) =~= seq![body]);
}

/// Whether `b` is white space.
pub fn is_space_byte(b: u8) -> (r: bool)
    ensures
        r == is_space(b),
{
    b == 32 || (9 <= b && b <= 13)
}

/// Whether two byte strings hold the same bytes.
pub fn bytes_eq(a: &[u8], b: &[u8]) -> (r: bool)
    ensures
        r == (a@ == b@),
{
    if a.len() != b.len() {
        return false;
    }
    let mut i: usize = 0;
    while i < a.len()
        invariant
            i <= a.len(),
            a.len() == b.len(),
            forall|k: int| 0 <= k < i ==> a@[k] == b@[k],
        decreases a.len() - i,
    {
        if a[i] != b[i] {
            return false;
        }
        i += 1;
    }
    assert(a@ =~= b@);
    true
}

/// Appends the bytes of `src` to `dst`.
pub fn append(dst: &mut Vec<u8>, src: &[u8])
    ensures
        final(dst)@ == old(dst)@ + src@,
{
    let mut i: usize = 0;
    while i < src.len()
        invariant
            i <= src.len(),
            dst@ == old(dst)@ + src@.subrange(0, i as int),
        decreases src.len() - i,
    {
        dst.push(src[i]);
        i += 1;
        assert(dst@ =~= old(dst)@ + src@.subrange(0, i as int));
    }
    assert(src@.subrange(0, src@.len() as int) =~= src@);
}

/// `s` with every ASCII capital in lower case.
pub fn to_lower(s: &[u8]) -> (r: Vec<u8>)
    ensures
        r@ == lowered(s@),
{
    let mut out: Vec<u8> = Vec::new();
    let mut i: usize = 0;
    while i < s.len()
        invariant
            i <= s.len(),
            out@.len() == i,
            forall|k: int| 0 <= k < i ==> out@[k] == lower(s@[k]),
        decreases s.len() - i,
    {
        let b: u8 = s[i];
        if 65 <= b && b <= 90 {
            out.push(b + 32);
        } else {
            out.push(b);
        }
        i += 1;
    }
    assert(out@ =~= lowered(s@));
    out
}

/// Splits `s` into its white-space separated fields.
pub fn split_fields(s: &[u8]) -> (r: Vec<Vec<u8>>)
    ensures
        views(r@) == fields(s@),
{
    let mut out: Vec<Vec<u8>> = Vec::new();
    let mut i: usize = 0;
    assert(views(out@) =~= Seq::<Seq<u8>>::empty());
    while i < s.len()
        invariant
            i <= s.len(),
            fields(s@) == views(out@) + fields_from(s@, i as int),
        decreases s.len() - i,
    {
        if is_space_byte(s[i]) {
            i += 1;
        } else {
            let start: usize = i;
            let mut j: usize = i;
            while j < s.len() && !is_space_byte(s[j])
                invariant
                    start <= j <= s.len(),
                    start < s.len(),
                    !is_space(s@[start as int]),
                    word_end(s@, start as int) == word_end(s@, j as int),
                decreases s.len() - j,
            {
                j += 1;
            }
            let word = slice_to_vec(slice_subrange(s, start, j));
            proof {
                assert(word_end(s@, start as int) == j);
                assert(j > start);
                assert(views(out@.push(word)) =~= views(out@) + seq![word@]);
                assert(fields(s@) =~= views(out@.push(word)) + fields_from(s@, j as int));
            }
            out.push(word);
            i = j;
        }
    }
    assert(fields_from(s@, i as int) =~= Seq::<Seq<u8>>::empty());
    assert(views(out@) + Seq::<Seq<u8>>::empty() =~= views(out@));
    out
}

/// Splits `s` into its lines.
pub fn split_lines(s: &[u8]) -> (r: Vec<Vec<u8>>)
    ensures
        views(r@) == lines(s@),
{
    let mut out: Vec<Vec<u8>> = Vec::new();
    let mut i: usize = 0;
    assert(views(out@) =~= Seq::<Seq<u8>>::empty());
    while i < s.len()
        invariant
            i <= s.len(),
            lines(s@) == views(out@) + lines_from(s@, i as int),
        decreases s.len() - i,
    {
        let start: usize = i;
        let mut j: usize = i;
        while j < s.len() && s[j] != 10
            invariant
                start <= j <= s.len(),
                line_end(s@, start as int) == line_end(s@, j as int),
            decreases s.len() - j,
        {
            j += 1;
        }
        let line = slice_to_vec(slice_subrange(s, start, j));
        proof {
            assert(line_end(s@, start as int) == j);
            assert(views(out@.push(line)) =~= views(out@) + seq![line@]);
            if j < s.len() {
                assert(lines(s@) =~= views(out@.push(line)) + lines_from(s@, j + 1));
            } else {
                assert(lines(s@) =~= views(out@.push(line)) + lines_from(s@, j as int));
            }
        }
        out.push(line);
        if j < s.len() {
            i = j + 1;
        } else {
            i = j;
        }
    }
    assert(lines_from(s@, i as int) =~= Seq::<Seq<u8>>::empty());
    assert(views(out@) + Seq::<Seq<u8>>::empty() =~= views(out@));
    out
}

} // verus!
