use vstd::prelude::*;

verus! {

/// Appends one character to a string.
#[verifier::external_body]
fn string_push(s: &mut String, c: char)
    ensures
        final(s)@ == old(s)@.push(c),
{
    s.push(c)
}

/// The characters of a string slice.
pub fn chars_of(s: &str) -> (r: Vec<char>)
    ensures
        r@ == s@,
{
    let n = s.unicode_len();
    let mut r: Vec<char> = Vec::new();
    let mut i: usize = 0;
    while i < n
        invariant
            n == s@.len(),
            i <= n,
            r@ == s@.subrange(0, i as int),
        decreases n - i,
    {
        r.push(s.get_char(i));
        i = i + 1;
    }
    r
}

/// A string holding the given characters.
pub fn string_of(v: &Vec<char>) -> (r: String)
    ensures
        r@ == v@,
{
    let mut r = String::new();
    let mut i: usize = 0;
    while i < v.len()
        invariant
            i <= v@.len(),
            r@ == v@.subrange(0, i as int),
        decreases v@.len() - i,
    {
        string_push(&mut r, v[i]);
        i = i + 1;
    }
    r
}

/// Whitespace as `char::is_ascii_whitespace` documents it: space, tab, line feed, form feed, carriage return.
pub open spec fn is_ascii_ws(c: char) -> bool {
    c == ' ' || c == '\t' || c == '\n' || c == '\x0C' || c == '\r'
}

pub fn is_ascii_whitespace(c: char) -> (r: bool)
    ensures
        r == is_ascii_ws(c),
{
    c == ' ' || c == '\t' || c == '\n' || c == '\x0C' || c == '\r'
}

/// Number of leading characters that are not whitespace.
pub open spec fn word_len(s: Seq<char>) -> nat
    decreases s.len(),
{
    if s.len() == 0 || is_ascii_ws(s[0]) {
        0
    } else {
        1 + word_len(s.drop_first())
    }
}

/// A word is no longer than the text it starts, and a text that starts with a non-blank
/// character starts with a word of at least one character.
pub proof fn lemma_word_len_bound(s: Seq<char>)
    ensures
        word_len(s) <= s.len(),
        s.len() > 0 && !is_ascii_ws(s[0]) ==> word_len(s) >= 1,
    decreases s.len(),
{
    if s.len() > 0 && !is_ascii_ws(s[0]) {
        lemma_word_len_bound(s.drop_first());
    }
}

/// The whitespace-separated words of a text, in order (as `str::split_ascii_whitespace` yields them).
pub open spec fn words(s: Seq<char>) -> Seq<Seq<char>>
    decreases s.len(),
{
    if s.len() == 0 {
        seq![]
    } else if is_ascii_ws(s[0]) {
        words(s.drop_first())
    } else {
        let k = word_len(s);
        proof {
            lemma_word_len_bound(s);
        }
        seq![s.take(k as int)] + words(s.skip(k as int))
    }
}

/// Number of leading characters before the first `sep`.
pub open spec fn piece_len(s: Seq<char>, sep: char) -> nat
    decreases s.len(),
{
    if s.len() == 0 || s[0] == sep {
        0
    } else {
        1 + piece_len(s.drop_first(), sep)
    }
}

/// The pieces of a text between separators, as `str::split` yields them: always at least one.
pub open spec fn split_pieces(s: Seq<char>, sep: char) -> Seq<Seq<char>>
    decreases s.len(),
{
    let k = piece_len(s, sep);
    if k >= s.len() {
        seq![s]
    } else {
        seq![s.take(k as int)] + split_pieces(s.skip(k as int + 1), sep)
    }
}

/// Pieces joined with a separator between neighbours.
pub open spec fn join_pieces(parts: Seq<Seq<char>>, sep: char) -> Seq<char>
    decreases parts.len(),
{
    if parts.len() == 0 {
        seq![]
    } else if parts.len() == 1 {
        parts[0]
    } else {
        join_pieces(parts.drop_last(), sep) + seq![sep] + parts.last()
    }
}

/// `s` starts with `prefix`.
pub open spec fn has_prefix(s: Seq<char>, prefix: Seq<char>) -> bool {
    prefix.len() <= s.len() && s.take(prefix.len() as int) == prefix
}

/// Lexicographic order of character sequences, as `str` orders its values.
pub open spec fn lex_le(a: Seq<char>, b: Seq<char>) -> bool
    decreases a.len(),
{
    if a.len() == 0 {
        true
    } else if b.len() == 0 {
        false
    } else if a[0] != b[0] {
        (a[0] as int) < (b[0] as int)
    } else {
        lex_le(a.drop_first(), b.drop_first())
    }
}

/// Bytes that a character takes in UTF-8, as `char::len_utf8` documents.
pub open spec fn char_utf8_len(c: char) -> nat {
    if (c as u32) < 0x80 {
        1
    } else if (c as u32) < 0x800 {
        2
    } else if (c as u32) < 0x10000 {
        3
    } else {
        4
    }
}

/// Bytes that a text takes in UTF-8.
pub open spec fn utf8_len(s: Seq<char>) -> nat
    decreases s.len(),
{
    if s.len() == 0 {
        0
    } else {
        utf8_len(s.drop_last()) + char_utf8_len(s.last())
    }
}

pub fn chars_equal(a: &Vec<char>, b: &Vec<char>) -> (r: bool)
    ensures
        r == (a@ == b@),
{
    if a.len() != b.len() {
        return false;
    }
    let mut i: usize = 0;
    while i < a.len()
        invariant
            a@.len() == b@.len(),
            i <= a@.len(),
            forall|j: int| 0 <= j < i ==> a@[j] == b@[j],
        decreases a@.len() - i,
    {
        if a[i] != b[i] {
            return false;
        }
        i = i + 1;
    }
    assert(a@ =~= b@);
    true
}

pub fn starts_with(s: &Vec<char>, prefix: &Vec<char>) -> (r: bool)
    ensures
        r == has_prefix(s@, prefix@),
{
    if prefix.len() > s.len() {
        return false;
    }
    let mut i: usize = 0;
    while i < prefix.len()
        invariant
            prefix@.len() <= s@.len(),
            i <= prefix@.len(),
            forall|j: int| 0 <= j < i ==> s@[j] == prefix@[j],
        decreases prefix@.len() - i,
    {
        if s[i] != prefix[i] {
            assert(s@.take(prefix@.len() as int)[i as int] != prefix@[i as int]);
            return false;
        }
        i = i + 1;
    }
    assert(s@.take(prefix@.len() as int) =~= prefix@);
    true
}

} // verus!

verus! {

/// The character sequences held by a vector of character vectors.
pub open spec fn views(v: Seq<Vec<char>>) -> Seq<Seq<char>> {
    v.map_values(|x: Vec<char>| x@)
}

proof fn lemma_word_scan(s: Seq<char>, i: int, j: int)
    requires
        0 <= i <= j <= s.len(),
        forall|k: int| i <= k < j ==> !is_ascii_ws(#[trigger] s[k]),
        j == s.len() || is_ascii_ws(s[j]),
    ensures
        word_len(s.skip(i)) == j - i,
    decreases j - i,
{
    if i < j {
        lemma_word_scan(s, i + 1, j);
        assert(s.skip(i).drop_first() =~= s.skip(i + 1));
    } else {
        if j < s.len() {
            assert(s.skip(i)[0] == s[j]);
        }
    }
}

/// The piece at `i` runs up to the first separator at or after `i` (or the end of the text).
pub proof fn lemma_piece_scan(s: Seq<char>, sep: char, i: int, j: int)
    requires
        0 <= i <= j <= s.len(),
        forall|k: int| i <= k < j ==> #[trigger] s[k] != sep,
        j == s.len() || s[j] == sep,
    ensures
        piece_len(s.skip(i), sep) == j - i,
    decreases j - i,
{
    if i < j {
        lemma_piece_scan(s, sep, i + 1, j);
        assert(s.skip(i).drop_first() =~= s.skip(i + 1));
    } else {
        if j < s.len() {
            assert(s.skip(i)[0] == s[j]);
        }
    }
}

/// Splits a text into its whitespace-separated words.
pub fn split_words(s: &Vec<char>) -> (r: Vec<Vec<char>>)
    ensures
        views(r@) == words(s@),
{
    let n = s.len();
    let mut r: Vec<Vec<char>> = Vec::new();
    let mut i: usize = 0;
    assert(s@.skip(0) =~= s@);
    while i < n
        invariant
            n == s@.len(),
            i <= n,
            views(r@) + words(s@.skip(i as int)) == words(s@),
        decreases n - i,
    {
        if is_ascii_whitespace(s[i]) {
            assert(s@.skip(i as int).drop_first() =~= s@.skip(i + 1));
            i = i + 1;
        } else {
            let mut word: Vec<char> = Vec::new();
            let mut j = i;
            while j < n && !is_ascii_whitespace(s[j])
                invariant
                    n == s@.len(),
                    i <= j <= n,
                    word@ == s@.subrange(i as int, j as int),
                    forall|k: int| i <= k < j ==> !is_ascii_ws(#[trigger] s@[k]),
                decreases n - j,
            {
                word.push(s[j]);
                j = j + 1;
            }
            proof {
                lemma_word_scan(s@, i as int, j as int);
                assert(s@.skip(i as int).take(j - i) =~= s@.subrange(i as int, j as int));
                assert(s@.skip(i as int).skip(j - i) =~= s@.skip(j as int));
                assert(views(r@.push(word)) =~= views(r@).push(word@));
                assert(views(r@) + words(s@.skip(i as int)) =~= views(r@).push(word@) + words(s@.skip(j as int)));
            }
            r.push(word);
            i = j;
        }
    }
    assert(views(r@) + words(s@.skip(n as int)) =~= views(r@));
    r
}

/// Splits a text at every `sep`.
pub fn split_at_char(s: &Vec<char>, sep: char) -> (r: Vec<Vec<char>>)
    ensures
        views(r@) == split_pieces(s@, sep),
        r@.len() >= 1,
{
    let n = s.len();
    let mut r: Vec<Vec<char>> = Vec::new();
    let mut i: usize = 0;
    assert(s@.skip(0) =~= s@);
    loop
        invariant
            n == s@.len(),
            i <= n,
            views(r@) + split_pieces(s@.skip(i as int), sep) == split_pieces(s@, sep),
        decreases n - i,
    {
        let mut piece: Vec<char> = Vec::new();
        let mut j = i;
        while j < n && s[j] != sep
            invariant
                n == s@.len(),
                i <= j <= n,
                piece@ == s@.subrange(i as int, j as int),
                forall|k: int| i <= k < j ==> #[trigger] s@[k] != sep,
            decreases n - j,
        {
            piece.push(s[j]);
            j = j + 1;
        }
        proof {
            lemma_piece_scan(s@, sep, i as int, j as int);
            assert(s@.skip(i as int).take(j - i) =~= s@.subrange(i as int, j as int));
            assert(views(r@.push(piece)) =~= views(r@).push(piece@));
        }
        if j >= n {
            proof {
                assert(s@.skip(i as int) =~= s@.subrange(i as int, j as int));
                assert(views(r@) + split_pieces(s@.skip(i as int), sep) =~= views(r@).push(piece@));
            }
            r.push(piece);
            return r;
        }
        proof {
            assert(s@.skip(i as int).skip(j - i + 1) =~= s@.skip(j + 1));
            assert(views(r@) + split_pieces(s@.skip(i as int), sep) =~= views(r@).push(piece@) + split_pieces(
                s@.skip(j + 1),
                sep,
            ));
        }
        r.push(piece);
        i = j + 1;
    }
}

} // verus!

verus! {

/// Joins `parts` with `sep` between neighbours.
pub fn join_with(parts: &Vec<Vec<char>>, sep: char) -> (r: Vec<char>)
    ensures
        r@ == join_pieces(views(parts@), sep),
{
    let mut r: Vec<char> = Vec::new();
    let mut i: usize = 0;
    while i < parts.len()
        invariant
            i <= parts@.len(),
            r@ == join_pieces(views(parts@).take(i as int), sep),
        decreases parts@.len() - i,
    {
        let ghost before = r@;
        if i > 0 {
            r.push(sep);
        }
        let mut j: usize = 0;
        let ghost mid = r@;
        while j < parts[i].len()
            invariant
                i < parts@.len(),
                j <= parts@[i as int]@.len(),
                r@ == mid + parts@[i as int]@.take(j as int),
            decreases parts@[i as int]@.len() - j,
        {
            r.push(parts[i][j]);
            j = j + 1;
        }
        proof {
            assert(parts@[i as int]@.take(j as int) =~= parts@[i as int]@);
            let t = views(parts@).take(i + 1);
            assert(t.drop_last() =~= views(parts@).take(i as int));
            assert(t.last() == parts@[i as int]@);
            if i == 0 {
                assert(t =~= seq![parts@[0]@]);
                assert(r@ =~= parts@[0]@);
            } else {
                assert(r@ =~= before + seq![sep] + parts@[i as int]@);
            }
        }
        i = i + 1;
    }
    assert(views(parts@).take(parts@.len() as int) =~= views(parts@));
    r
}

/// Longest common prefix of two texts.
pub open spec fn lcp(a: Seq<char>, b: Seq<char>) -> Seq<char>
    decreases a.len(),
{
    if a.len() == 0 || b.len() == 0 || a[0] != b[0] {
        seq![]
    } else {
        seq![a[0]] + lcp(a.drop_first(), b.drop_first())
    }
}

/// Longest common prefix of all texts; empty for no texts.
pub open spec fn common_prefix(strs: Seq<Seq<char>>) -> Seq<char>
    decreases strs.len(),
{
    if strs.len() == 0 {
        seq![]
    } else if strs.len() == 1 {
        strs[0]
    } else {
        lcp(common_prefix(strs.drop_last()), strs.last())
    }
}

/// Length of the longest common prefix of `a` and `b`.
pub open spec fn lcp_len_at(a: Seq<char>, b: Seq<char>, k: int) -> bool {
    &&& 0 <= k <= a.len()
    &&& k <= b.len()
    &&& forall|j: int| 0 <= j < k ==> a[j] == b[j]
    &&& (k == a.len() || k == b.len() || a[k] != b[k])
}

/// The common prefix of two texts is the first `k` characters where the texts agree on exactly
/// their first `k` characters.
pub proof fn lemma_lcp_is_prefix(a: Seq<char>, b: Seq<char>, k: int)
    requires
        lcp_len_at(a, b, k),
    ensures
        lcp(a, b) == a.take(k),
    decreases a.len(),
{
    if a.len() == 0 || b.len() == 0 || a[0] != b[0] {
        assert(k == 0);
        assert(a.take(0) =~= seq![]);
    } else {
        assert(k >= 1);
        assert forall|j: int| 0 <= j < k - 1 implies a.drop_first()[j] == b.drop_first()[j] by {
            assert(a[j + 1] == b[j + 1]);
        }
        if k - 1 < a.len() - 1 && k - 1 < b.len() - 1 {
            assert(a.drop_first()[k - 1] == a[k]);
            assert(b.drop_first()[k - 1] == b[k]);
        }
        lemma_lcp_is_prefix(a.drop_first(), b.drop_first(), k - 1);
        assert(seq![a[0]] + a.drop_first().take(k - 1) =~= a.take(k));
    }
}

/// Longest common prefix of two texts.
pub fn common_prefix_of_two(a: &Vec<char>, b: &Vec<char>) -> (r: Vec<char>)
    ensures
        r@ == lcp(a@, b@),
{
    let mut k: usize = 0;
    while k < a.len() && k < b.len() && a[k] == b[k]
        invariant
            k <= a@.len(),
            k <= b@.len(),
            forall|j: int| 0 <= j < k ==> a@[j] == b@[j],
        decreases a@.len() - k,
    {
        k = k + 1;
    }
    proof {
        lemma_lcp_is_prefix(a@, b@, k as int);
    }
    let mut r: Vec<char> = Vec::new();
    let mut i: usize = 0;
    while i < k
        invariant
            k <= a@.len(),
            i <= k,
            r@ == a@.take(i as int),
        decreases k - i,
    {
        r.push(a[i]);
        i = i + 1;
        assert(r@ =~= a@.take(i as int));
    }
    r
}

/// Longest common prefix of all texts (empty for none).
pub fn find_common_prefix(strings: &Vec<Vec<char>>) -> (r: Vec<char>)
    ensures
        r@ == common_prefix(views(strings@)),
{
    if strings.len() == 0 {
        return Vec::new();
    }
    let mut p = strings[0].clone();
    assert(p@ =~= strings@[0]@);
    let mut i: usize = 1;
    assert(views(strings@).take(1) =~= seq![strings@[0]@]);
    while i < strings.len()
        invariant
            1 <= i <= strings@.len(),
            p@ == common_prefix(views(strings@).take(i as int)),
        decreases strings@.len() - i,
    {
        let next = common_prefix_of_two(&p, &strings[i]);
        proof {
            let t = views(strings@).take(i + 1);
            assert(t.drop_last() =~= views(strings@).take(i as int));
            assert(t.last() == strings@[i as int]@);
        }
        p = next;
        i = i + 1;
    }
    assert(views(strings@).take(strings@.len() as int) =~= views(strings@));
    p
}

/// Any two texts are ordered one way or the other.
pub proof fn lemma_lex_total(a: Seq<char>, b: Seq<char>)
    ensures
        lex_le(a, b) || lex_le(b, a),
    decreases a.len(),
{
    if a.len() > 0 && b.len() > 0 {
        if a[0] == b[0] {
            lemma_lex_total(a.drop_first(), b.drop_first());
        } else {
            assert((a[0] as int) != (b[0] as int));
        }
    }
}

/// The order of texts is transitive.
pub proof fn lemma_lex_transitive(a: Seq<char>, b: Seq<char>, c: Seq<char>)
    requires
        lex_le(a, b),
        lex_le(b, c),
    ensures
        lex_le(a, c),
    decreases a.len(),
{
    if a.len() > 0 && b.len() > 0 && c.len() > 0 && a[0] == b[0] && b[0] == c[0] {
        lemma_lex_transitive(a.drop_first(), b.drop_first(), c.drop_first());
    }
}

/// Is `a` at most `b` in lexicographic order.
pub fn lex_less_or_equal(a: &Vec<char>, b: &Vec<char>) -> (r: bool)
    ensures
        r == lex_le(a@, b@),
{
    let mut k: usize = 0;
    assert(a@.skip(0) =~= a@);
    assert(b@.skip(0) =~= b@);
    while k < a.len() && k < b.len() && a[k] == b[k]
        invariant
            k <= a@.len(),
            k <= b@.len(),
            lex_le(a@, b@) == lex_le(a@.skip(k as int), b@.skip(k as int)),
        decreases a@.len() - k,
    {
        proof {
            assert(a@.skip(k as int).drop_first() =~= a@.skip(k + 1));
            assert(b@.skip(k as int).drop_first() =~= b@.skip(k + 1));
        }
        k = k + 1;
    }
    if k == a.len() {
        return true;
    }
    if k == b.len() {
        return false;
    }
    assert(a@.skip(k as int)[0] == a@[k as int]);
    assert(b@.skip(k as int)[0] == b@[k as int]);
    a[k] < b[k]
}

/// Lexicographically sorted.
pub open spec fn lex_sorted(s: Seq<Seq<char>>) -> bool {
    forall|i: int, j: int| 0 <= i < j < s.len() ==> lex_le(#[trigger] s[i], #[trigger] s[j])
}

/// Sorts texts in lexicographic order.
pub fn sort_texts(v: &mut Vec<Vec<char>>)
    ensures
        lex_sorted(views(final(v)@)),
        views(final(v)@).to_multiset() == views(old(v)@).to_multiset(),
        final(v)@.len() == old(v)@.len(),
{
    let n = v.len();
    let mut i: usize = 1;
    if n == 0 {
        return;
    }
    while i < n
        invariant
            1 <= i <= n,
            n == v@.len(),
            lex_sorted(views(v@).take(i as int)),
            views(v@).to_multiset() == views(old(v)@).to_multiset(),
        decreases n - i,
    {
        let mut j = i;
        assert forall|a: int, b: int| 0 <= a < b <= i && a != j && b != j implies lex_le(#[trigger] views(v@)[a], #[trigger] views(v@)[b]) by {
            assert(views(v@).take(i as int)[a] == views(v@)[a]);
            assert(views(v@).take(i as int)[b] == views(v@)[b]);
        }
        while j > 0 && !lex_less_or_equal(&v[j - 1], &v[j])
            invariant
                0 <= j <= i < n,
                n == v@.len(),
                views(v@).to_multiset() == views(old(v)@).to_multiset(),
                // Sorted apart from position j.
                forall|a: int, b: int| 0 <= a < b <= i && a != j && b != j ==> lex_le(#[trigger] views(v@)[a], #[trigger] views(v@)[b]),
                // Everything after j is no smaller than the element at j.
                forall|b: int| j < b <= i ==> lex_le(views(v@)[j as int], #[trigger] views(v@)[b]),
            decreases j,
        {
            let ghost before = v@;
            let left = v[j - 1].clone();
            let right = v[j].clone();
            assert(left@ == before[j - 1]@);
            assert(right@ == before[j as int]@);
            v.set(j - 1, right);
            v.set(j, left);
            proof {
                lemma_lex_total(before[j - 1]@, before[j as int]@);
                crate::seq_util::lemma_swap_multiset(views(before), j - 1, j as int);
                assert(views(v@) =~= views(before).update(j - 1, views(before)[j as int]).update(j as int, views(before)[j - 1]));
                assert forall|a: int, b: int| 0 <= a < b <= i && a != j - 1 && b != j - 1 implies lex_le(#[trigger] views(v@)[a], #[trigger] views(v@)[b]) by {
                    if a == j {
                        assert(views(v@)[a] == views(before)[j - 1]);
                        assert(lex_le(views(before)[j - 1], views(before)[b]));
                    } else if b == j {
                        assert(views(v@)[b] == views(before)[j - 1]);
                        assert(lex_le(views(before)[a], views(before)[j - 1]));
                    } else {
                        assert(lex_le(views(before)[a], views(before)[b]));
                    }
                }
                assert forall|b: int| j - 1 < b <= i implies lex_le(views(v@)[j - 1], #[trigger] views(v@)[b]) by {
                    if b == j {
                    } else {
                        assert(lex_le(views(before)[j as int], views(before)[b]));
                    }
                }
            }
            j = j - 1;
        }
        proof {
            assert forall|a: int, b: int| 0 <= a < b < i + 1 implies lex_le(#[trigger] views(v@).take(i + 1)[a], #[trigger] views(v@).take(i + 1)[b]) by {
                if a == j || b == j {
                    if a == j {
                    } else {
                        // b == j > a, and j > 0 means the loop stopped on a sorted pair
                        if j > 0 && a < j - 1 {
                            lemma_lex_transitive(views(v@)[a], views(v@)[j - 1], views(v@)[j as int]);
                        }
                    }
                }
            }
        }
        i = i + 1;
    }
    assert(views(v@).take(n as int) =~= views(v@));
}

} // verus!

verus! {

/// Bytes that the text takes in UTF-8.
pub fn utf8_length(s: &Vec<char>) -> (r: u128)
    ensures
        r == utf8_len(s@),
{
    let mut r: u128 = 0;
    let mut i: usize = 0;
    while i < s.len()
        invariant
            i <= s@.len(),
            r == utf8_len(s@.take(i as int)),
            r <= 4 * i,
        decreases s@.len() - i,
    {
        let c = s[i];
        let w: u128 = if (c as u32) < 0x80 {
            1
        } else if (c as u32) < 0x800 {
            2
        } else if (c as u32) < 0x10000 {
            3
        } else {
            4
        };
        assert(s@.take(i + 1).drop_last() =~= s@.take(i as int));
        r = r + w;
        i = i + 1;
    }
    assert(s@.take(i as int) =~= s@);
    r
}

} // verus!

verus! {

/// Strings holding the given character sequences.
pub fn strings_of(v: &Vec<Vec<char>>) -> (r: Vec<String>)
    ensures
        r@.map_values(|s: String| s@) == views(v@),
{
    let mut r: Vec<String> = Vec::new();
    let mut i: usize = 0;
    while i < v.len()
        invariant
            i <= v@.len(),
            r@.map_values(|s: String| s@) == views(v@).take(i as int),
        decreases v@.len() - i,
    {
        let s = string_of(&v[i]);
        let ghost before = r@;
        r.push(s);
        assert(r@.map_values(|s: String| s@) =~= before.map_values(|s: String| s@).push(v@[i as int]@));
        assert(views(v@).take(i + 1) =~= views(v@).take(i as int).push(v@[i as int]@));
        i = i + 1;
    }
    assert(views(v@).take(v@.len() as int) =~= views(v@));
    r
}

/// Character vectors holding the texts of the given strings.
pub fn chars_of_strings(v: &Vec<String>) -> (r: Vec<Vec<char>>)
    ensures
        views(r@) == v@.map_values(|s: String| s@),
{
    let mut r: Vec<Vec<char>> = Vec::new();
    let mut i: usize = 0;
    while i < v.len()
        invariant
            i <= v@.len(),
            views(r@) == v@.map_values(|s: String| s@).take(i as int),
        decreases v@.len() - i,
    {
        let c = chars_of(v[i].as_str());
        let ghost before = r@;
        r.push(c);
        assert(views(r@) =~= views(before).push(v@[i as int]@));
        assert(v@.map_values(|s: String| s@).take(i + 1) =~= v@.map_values(|s: String| s@).take(i as int).push(v@[i as int]@));
        i = i + 1;
    }
    assert(v@.map_values(|s: String| s@).take(v@.len() as int) =~= v@.map_values(|s: String| s@));
    r
}

} // verus!
