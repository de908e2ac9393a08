use vstd::prelude::*;

verus! {

broadcast use vstd::string::group_string_axioms;

/// An ASCII upper-case letter.
pub open spec fn is_ascii_upper(c: char) -> bool {
    'A' <= c && c <= 'Z'
}

/// ASCII case folding of one character: `A`..`Z` become `a`..`z`, all else stays.
pub open spec fn fold_char(c: char) -> char {
    if is_ascii_upper(c) {
        ((c as u32) + 32) as char
    } else {
        c
    }
}

/// ASCII case folding of a whole text.
pub open spec fn fold(s: Seq<char>) -> Seq<char> {
    s.map_values(|c: char| fold_char(c))
}

/// White space as Unicode defines it (the property White_Space).
pub open spec fn is_space(c: char) -> bool {
    let u = c as u32;
    (0x09 <= u && u <= 0x0D) || u == 0x20 || u == 0x85 || u == 0xA0 || u == 0x1680 || (0x2000 <= u
        && u <= 0x200A) || u == 0x2028 || u == 0x2029 || u == 0x202F || u == 0x205F || u == 0x3000
}

/// Where each piece of `s` starts, when `s` is cut at every `sep`.
/// There is always one piece more than there are separators.
pub open spec fn piece_starts(s: Seq<char>, sep: char) -> Seq<int>
    decreases s.len(),
{
    if s.len() == 0 {
        seq![0int]
    } else if s.last() == sep {
        piece_starts(s.drop_last(), sep).push(s.len() as int)
    } else {
        piece_starts(s.drop_last(), sep)
    }
}

pub open spec fn piece_count(s: Seq<char>, sep: char) -> int {
    piece_starts(s, sep).len() as int
}

/// One past the last character of piece `k`.
pub open spec fn piece_end(s: Seq<char>, sep: char, k: int) -> int {
    if k + 1 < piece_count(s, sep) {
        piece_starts(s, sep)[k + 1] - 1
    } else {
        s.len() as int
    }
}

/// Piece `k` of `s` cut at `sep`.
pub open spec fn piece(s: Seq<char>, sep: char, k: int) -> Seq<char> {
    s.subrange(piece_starts(s, sep)[k], piece_end(s, sep, k))
}

/// No piece of `s` cut at `sep` is empty.
pub open spec fn no_empty_piece(s: Seq<char>, sep: char) -> bool {
    forall|k: int| 0 <= k < piece_count(s, sep) ==> piece_end(s, sep, k) > piece_starts(s, sep)[k]
}

pub proof fn lemma_piece_starts(s: Seq<char>, sep: char)
    ensures
        piece_count(s, sep) >= 1,
        piece_starts(s, sep)[0] == 0,
        forall|k: int|
            1 <= k < piece_count(s, sep) ==> 1 <= #[trigger] piece_starts(s, sep)[k] <= s.len()
                && s[piece_starts(s, sep)[k] - 1] == sep,
        forall|k: int|
            0 <= k < piece_count(s, sep) - 1 ==> #[trigger] piece_starts(s, sep)[k] < piece_starts(
                s,
                sep,
            )[k + 1],
        forall|k: int, i: int|
            #![trigger piece_end(s, sep, k), s[i]]
            0 <= k < piece_count(s, sep) && piece_starts(s, sep)[k] <= i < piece_end(s, sep, k)
                ==> s[i] != sep,
    decreases s.len(),
{
    if s.len() > 0 {
        let t = s.drop_last();
        lemma_piece_starts(t, sep);
        assert forall|k: int, i: int|
            #![trigger piece_end(s, sep, k), s[i]]
            0 <= k < piece_count(s, sep) && piece_starts(s, sep)[k] <= i < piece_end(s, sep, k)
                implies s[i] != sep by {
            if k < piece_count(t, sep) {
                assert(piece_starts(s, sep)[k] == piece_starts(t, sep)[k]);
                if i < t.len() {
                    assert(piece_end(t, sep, k) >= i + 1);
                    assert(s[i] == t[i]);
                }
            }
        }
    }
}

/// Relies on `str::to_ascii_lowercase`: ASCII letters are folded to lower
/// case, every other character is kept.
#[verifier::external_body]
pub(crate) fn ascii_lowercase(s: &str) -> (r: String)
    ensures
        r@ == fold(s@),
{
    s.to_ascii_lowercase()
}

/// What `str::to_lowercase` makes of a text: Unicode lower case.
pub uninterp spec fn lower_of(s: Seq<char>) -> Seq<char>;

/// Relies on `str::to_lowercase`: the result depends on the characters alone.
#[verifier::external_body]
pub(crate) fn unicode_lowercase(s: &str) -> (r: String)
    ensures
        r@ == lower_of(s@),
{
    s.to_lowercase()
}

/// The text without any trailing dots.
pub open spec fn trim_dots(s: Seq<char>) -> Seq<char>
    decreases s.len(),
{
    if s.len() > 0 && s.last() == '.' {
        trim_dots(s.drop_last())
    } else {
        s
    }
}

/// Relies on `String::from_iter` over characters: the string of exactly
/// these characters, in order.
#[verifier::external_body]
pub(crate) fn string_of(v: Vec<char>) -> (r: String)
    ensures
        r@ == v@,
{
    String::from_iter(v)
}

/// Whether no piece of `s[from..to]` cut at `sep` is empty, given where
/// the pieces start.
pub fn pieces_nonempty(s: &Vec<char>, from: usize, to: usize, sep: char, starts: &Vec<usize>) -> (r:
    bool)
    requires
        from <= to <= s@.len(),
        starts@.len() == piece_count(s@.subrange(from as int, to as int), sep),
        forall|j: int|
            0 <= j < starts@.len() ==> #[trigger] starts@[j] == from + piece_starts(
                s@.subrange(from as int, to as int),
                sep,
            )[j],
    ensures
        r == no_empty_piece(s@.subrange(from as int, to as int), sep),
{
    let ghost d = s@.subrange(from as int, to as int);
    proof {
        lemma_piece_starts(d, sep);
    }
    let count = starts.len();
    let mut k: usize = 0;
    while k < count
        invariant
            from <= to <= s@.len(),
            d == s@.subrange(from as int, to as int),
            count == starts@.len() == piece_count(d, sep),
            forall|j: int| 0 <= j < starts@.len() ==> #[trigger] starts@[j] == from + piece_starts(d, sep)[j],
            forall|j: int| 1 <= j < piece_count(d, sep) ==> 1 <= #[trigger] piece_starts(d, sep)[j] <= d.len(),
            k <= count,
            forall|j: int| 0 <= j < k ==> piece_end(d, sep, j) > #[trigger] piece_starts(d, sep)[j],
        decreases count - k,
    {
        let end = if k + 1 < count {
            starts[k + 1] - 1
        } else {
            to
        };
        if end <= starts[k] {
            assert(piece_end(d, sep, k as int) <= piece_starts(d, sep)[k as int]);
            return false;
        }
        k = k + 1;
    }
    true
}

/// The characters `s[from..to]`.
pub fn sub_chars(s: &Vec<char>, from: usize, to: usize) -> (r: Vec<char>)
    requires
        from <= to <= s@.len(),
    ensures
        r@ == s@.subrange(from as int, to as int),
{
    let mut v: Vec<char> = Vec::new();
    let mut i: usize = from;
    while i < to
        invariant
            from <= i <= to <= s@.len(),
            v@ == s@.subrange(from as int, i as int),
        decreases to - i,
    {
        v.push(s[i]);
        i = i + 1;
        assert(v@ =~= s@.subrange(from as int, i as int));
    }
    v
}

/// The characters of `v` in reverse order.
pub fn reversed(v: &Vec<char>) -> (r: Vec<char>)
    ensures
        r@ == v@.reverse(),
{
    let mut r: Vec<char> = Vec::new();
    let mut i: usize = v.len();
    while i > 0
        invariant
            i <= v@.len(),
            r@.len() == v@.len() - i,
            forall|k: int| 0 <= k < r@.len() ==> #[trigger] r@[k] == v@[v@.len() - 1 - k],
        decreases i,
    {
        i = i - 1;
        r.push(v[i]);
    }
    assert(r@ =~= v@.reverse());
    r
}

/// The characters of `s`, in order.
pub fn chars_of(s: &str) -> (r: Vec<char>)
    ensures
        r@ == s@,
{
    let mut r: Vec<char> = Vec::new();
    for c in it: s.chars()
        invariant
            r@ == it.seq().take(it.index() as int),
    {
        r.push(c);
    }
    r
}


/// Where each piece of `s[from..to]` starts, cut at `sep`, as positions in `s`.
pub fn piece_starts_in(s: &Vec<char>, from: usize, to: usize, sep: char) -> (r: Vec<usize>)
    requires
        from <= to <= s@.len(),
    ensures
        r@.len() == piece_count(s@.subrange(from as int, to as int), sep),
        forall|k: int|
            0 <= k < r@.len() ==> #[trigger] r@[k] == from + piece_starts(
                s@.subrange(from as int, to as int),
                sep,
            )[k],
{
    let mut r: Vec<usize> = Vec::new();
    r.push(from);
    let mut i: usize = from;
    assert(s@.subrange(from as int, from as int).len() == 0);
    while i < to
        invariant
            from <= i <= to <= s@.len(),
            r@.len() == piece_count(s@.subrange(from as int, i as int), sep),
            forall|k: int|
                0 <= k < r@.len() ==> #[trigger] r@[k] == from + piece_starts(
                    s@.subrange(from as int, i as int),
                    sep,
                )[k],
        decreases to - i,
    {
        let ghost prev = s@.subrange(from as int, i as int);
        let ghost next = s@.subrange(from as int, i + 1);
        assert(next.drop_last() =~= prev);
        assert(next.last() == s@[i as int]);
        if s[i] == sep {
            r.push(i + 1);
        }
        i = i + 1;
    }
    r
}

} // verus!
