use vstd::prelude::*;
use vstd::string::StrSliceExecFns;
use vstd::string::StringExecFns;

verus! {

/// Strict lexicographic order on character sequences, by Unicode code point.
///
/// This is the order in which `String` values compare, since UTF-8 byte order
/// coincides with code-point order.
pub open spec fn lex_lt(a: Seq<char>, b: Seq<char>) -> bool
    decreases a.len(),
{
    if b.len() == 0 {
        false
    } else if a.len() == 0 {
        true
    } else if (a[0] as u32) < (b[0] as u32) {
        true
    } else if (a[0] as u32) > (b[0] as u32) {
        false
    } else {
        lex_lt(a.drop_first(), b.drop_first())
    }
}

/// Strict lexicographic order on byte sequences.
pub open spec fn lex_lt_bytes(a: Seq<u8>, b: Seq<u8>) -> bool
    decreases a.len(),
{
    if b.len() == 0 {
        false
    } else if a.len() == 0 {
        true
    } else if a[0] < b[0] {
        true
    } else if a[0] > b[0] {
        false
    } else {
        lex_lt_bytes(a.drop_first(), b.drop_first())
    }
}

/// The character lies in the ASCII range.
pub open spec fn ascii_char(c: char) -> bool {
    (c as u32) < 128
}

/// All characters lie in the ASCII range.
pub open spec fn ascii_chars(s: Seq<char>) -> bool {
    forall|i: int| 0 <= i < s.len() ==> ascii_char(#[trigger] s[i])
}

/// An ASCII character casts to the same value as a byte and as a code point.
pub proof fn lemma_ascii_char_byte(c: char)
    requires
        ascii_char(c),
    ensures
        (c as u8) as u32 == c as u32,
{
}

/// On ASCII sequences, character order and the order of the corresponding
/// bytes agree.
pub proof fn lemma_lex_ascii(a: Seq<char>, b: Seq<char>)
    requires
        ascii_chars(a),
        ascii_chars(b),
    ensures
        lex_lt(a, b) == lex_lt_bytes(
            a.map_values(|c: char| c as u8),
            b.map_values(|c: char| c as u8),
        ),
    decreases a.len(),
{
    let ab = a.map_values(|c: char| c as u8);
    let bb = b.map_values(|c: char| c as u8);
    assert(ab.len() == a.len() && bb.len() == b.len());
    if b.len() == 0 || a.len() == 0 {
    } else {
        assert(ab[0] == a[0] as u8 && bb[0] == b[0] as u8);
        assert(ascii_char(a[0]) && ascii_char(b[0]));
        lemma_ascii_char_byte(a[0]);
        lemma_ascii_char_byte(b[0]);
        lemma_lex_ascii(a.drop_first(), b.drop_first());
        assert(a.drop_first().map_values(|c: char| c as u8) =~= ab.drop_first());
        assert(b.drop_first().map_values(|c: char| c as u8) =~= bb.drop_first());
    }
}

/// Character-for-character equality of two string slices.
pub fn str_eq(a: &str, b: &str) -> (r: bool)
    ensures
        r == (a@ == b@),
{
    let alen = a.unicode_len();
    let blen = b.unicode_len();
    if alen != blen {
        return false;
    }
    let mut i: usize = 0;
    while i < alen
        invariant
            0 <= i <= alen,
            alen == a@.len(),
            alen == b@.len(),
            forall|j: int| 0 <= j < i ==> a@[j] == b@[j],
        decreases alen - i,
    {
        if a.get_char(i) != b.get_char(i) {
            return false;
        }
        i = i + 1;
    }
    proof {
        assert(a@ =~= b@);
    }
    true
}

/// Three-way byte comparison: negative when `a` sorts first, zero on
/// equality, positive when `b` sorts first.
pub fn bytes_cmp(a: &[u8], b: &[u8]) -> (r: i8)
    ensures
        (r == 0i8) == (a@ == b@),
        (r < 0) == lex_lt_bytes(a@, b@),
        (r > 0) == (a@ != b@ && !lex_lt_bytes(a@, b@)),
{
    let mut i: usize = 0;
    proof {
        assert(a@.skip(0) =~= a@);
        assert(b@.skip(0) =~= b@);
    }
    loop
        invariant
            0 <= i <= a.len(),
            i <= b.len(),
            forall|j: int| 0 <= j < i ==> a@[j] == b@[j],
            lex_lt_bytes(a@, b@) == lex_lt_bytes(a@.skip(i as int), b@.skip(i as int)),
            (a@ == b@) == (a@.len() == b@.len() && a@.skip(i as int) == b@.skip(i as int)),
        decreases a.len() - i,
    {
        let ghost ar = a@.skip(i as int);
        let ghost br = b@.skip(i as int);
        if i >= a.len() || i >= b.len() {
            if a.len() == b.len() {
                proof {
                    assert(ar.len() == 0 && br.len() == 0);
                    assert(ar =~= br);
                }
                return 0;
            } else if a.len() < b.len() {
                proof {
                    assert(ar.len() == 0 && br.len() > 0);
                }
                return -1;
            } else {
                proof {
                    assert(br.len() == 0 && ar.len() > 0);
                }
                return 1;
            }
        }
        let x = a[i];
        let y = b[i];
        proof {
            assert(ar[0] == a@[i as int] && br[0] == b@[i as int]);
        }
        if x < y {
            return -1;
        } else if x > y {
            proof {
                assert(a@[i as int] != b@[i as int]);
            }
            return 1;
        }
        proof {
            assert(ar.drop_first() =~= a@.skip(i + 1));
            assert(br.drop_first() =~= b@.skip(i + 1));
            if a@.len() == b@.len() {
                if ar.drop_first() == br.drop_first() {
                    assert(ar =~= br) by {
                        assert(ar[0] == br[0]);
                        assert forall|k: int| 1 <= k < ar.len() implies ar[k] == br[k] by {
                            assert(ar[k] == ar.drop_first()[k - 1]);
                            assert(br[k] == br.drop_first()[k - 1]);
                        }
                    }
                } else {
                    if ar == br {
                        assert(ar.drop_first() =~= br.drop_first());
                    }
                }
            }
        }
        i = i + 1;
    }
}

/// Two byte sequences are equal, or one sorts strictly before the other.
pub proof fn lemma_lex_bytes_total(a: Seq<u8>, b: Seq<u8>)
    ensures
        a == b || lex_lt_bytes(a, b) || lex_lt_bytes(b, a),
        !(lex_lt_bytes(a, b) && lex_lt_bytes(b, a)),
    decreases a.len() + b.len(),
{
    if a.len() == 0 || b.len() == 0 {
        if a.len() == 0 && b.len() == 0 {
            assert(a =~= b);
        }
    } else {
        if a[0] == b[0] {
            lemma_lex_bytes_total(a.drop_first(), b.drop_first());
            if a.drop_first() == b.drop_first() {
                assert(a =~= b) by {
                    assert(a.len() == b.len());
                    assert forall|k: int| 0 <= k < a.len() implies a[k] == b[k] by {
                        if k > 0 {
                            assert(a[k] == a.drop_first()[k - 1]);
                            assert(b[k] == b.drop_first()[k - 1]);
                        }
                    }
                }
            }
        }
    }
}

/// The pieces of `s` between occurrences of the separator, in order.
///
/// There is always at least one piece; a separator at either end contributes
/// an empty piece.
pub open spec fn split_chars(s: Seq<char>, sep: char) -> Seq<Seq<char>>
    decreases s.len(),
{
    if s.len() == 0 {
        seq![Seq::<char>::empty()]
    } else if s[0] == sep {
        seq![Seq::<char>::empty()] + split_chars(s.drop_first(), sep)
    } else {
        let rest = split_chars(s.drop_first(), sep);
        seq![seq![s[0]] + rest[0]] + rest.drop_first()
    }
}

pub proof fn lemma_split_nonempty(s: Seq<char>, sep: char)
    ensures
        split_chars(s, sep).len() >= 1,
    decreases s.len(),
{
    if s.len() > 0 {
        lemma_split_nonempty(s.drop_first(), sep);
    }
}

/// Appending a non-separator character extends the final piece.
pub proof fn lemma_split_push(s: Seq<char>, sep: char, c: char)
    requires
        c != sep,
    ensures
        split_chars(s.push(c), sep) == split_chars(s, sep).update(
            split_chars(s, sep).len() - 1,
            split_chars(s, sep).last().push(c),
        ),
    decreases s.len(),
{
    lemma_split_nonempty(s, sep);
    let l = split_chars(s, sep);
    let r = split_chars(s.push(c), sep);
    if s.len() == 0 {
        assert(s.push(c).drop_first() =~= Seq::<char>::empty());
        assert(split_chars(Seq::<char>::empty(), sep) == seq![Seq::<char>::empty()]);
        assert(r =~~= seq![seq![c]]);
        assert(l.update(l.len() - 1, l.last().push(c)) =~~= seq![seq![c]]);
    } else {
        assert(s.push(c)[0] == s[0]);
        assert(s.push(c).drop_first() =~= s.drop_first().push(c));
        lemma_split_push(s.drop_first(), sep, c);
        lemma_split_nonempty(s.drop_first(), sep);
        let lr = split_chars(s.drop_first(), sep);
        let rr = split_chars(s.drop_first().push(c), sep);
        if s[0] == sep {
            assert(r =~~= l.update(l.len() - 1, l.last().push(c)));
        } else {
            if lr.len() == 1 {
                assert(rr == lr.update(lr.len() - 1, lr.last().push(c)));
                assert(r =~~= l.update(l.len() - 1, l.last().push(c)));
            } else {
                assert(rr[0] == lr[0]);
                assert(r =~~= l.update(l.len() - 1, l.last().push(c)));
            }
        }
    }
}

/// Appending the separator appends a fresh empty piece.
pub proof fn lemma_split_push_sep(s: Seq<char>, sep: char)
    ensures
        split_chars(s.push(sep), sep) == split_chars(s, sep).push(Seq::<char>::empty()),
    decreases s.len(),
{
    let l = split_chars(s, sep);
    let r = split_chars(s.push(sep), sep);
    if s.len() == 0 {
        assert(s.push(sep)[0] == sep);
        assert(s.push(sep).drop_first() =~= Seq::<char>::empty());
        assert(split_chars(Seq::<char>::empty(), sep) == seq![Seq::<char>::empty()]);
        assert(r =~~= l.push(Seq::<char>::empty()));
    } else {
        assert(s.push(sep)[0] == s[0]);
        assert(s.push(sep).drop_first() =~= s.drop_first().push(sep));
        lemma_split_push_sep(s.drop_first(), sep);
        lemma_split_nonempty(s.drop_first(), sep);
        assert(r =~~= l.push(Seq::<char>::empty()));
    }
}

/// Splits `s` at every occurrence of `sep`.
pub fn split(s: &str, sep: char) -> (r: Vec<String>)
    ensures
        r.deep_view() == split_chars(s@, sep),
{
    let n = s.unicode_len();
    let mut done: Vec<String> = Vec::new();
    let mut start: usize = 0;
    let mut i: usize = 0;
    proof {
        assert(s@.take(0) =~= Seq::<char>::empty());
        assert(s@.subrange(0, 0) =~= Seq::<char>::empty());
        assert(done.deep_view().push(s@.subrange(0, 0)) =~= split_chars(s@.take(0), sep));
    }
    while i < n
        invariant
            0 <= start <= i <= n,
            n == s@.len(),
            done.deep_view().push(s@.subrange(start as int, i as int)) == split_chars(
                s@.take(i as int),
                sep,
            ),
        decreases n - i,
    {
        let c = s.get_char(i);
        proof {
            assert(s@.take(i + 1) =~= s@.take(i as int).push(s@[i as int]));
            lemma_split_nonempty(s@.take(i as int), sep);
        }
        if c == sep {
            let piece = s.substring_char(start, i);
            done.push(piece.to_owned());
            start = i + 1;
            proof {
                lemma_split_push_sep(s@.take(i as int), sep);
                assert(s@.subrange(start as int, i + 1) =~= Seq::<char>::empty());
                assert(done.deep_view().push(s@.subrange(start as int, i + 1)) =~= split_chars(
                    s@.take(i + 1),
                    sep,
                ));
            }
        } else {
            proof {
                lemma_split_push(s@.take(i as int), sep, c);
                let l = split_chars(s@.take(i as int), sep);
                assert(l.len() - 1 == done.deep_view().len());
                assert(l.last() == s@.subrange(start as int, i as int));
                assert(s@.subrange(start as int, i + 1) =~= s@.subrange(
                    start as int,
                    i as int,
                ).push(s@[i as int]));
                assert(done.deep_view().push(s@.subrange(start as int, i + 1)) =~= l.update(
                    l.len() - 1,
                    l.last().push(c),
                ));
            }
        }
        i = i + 1;
    }
    proof {
        assert(s@.take(n as int) =~= s@);
    }
    let piece = s.substring_char(start, n);
    done.push(piece.to_owned());
    proof {
        assert(done.deep_view() =~= split_chars(s@, sep));
    }
    done
}

/// The pieces joined with the separator between consecutive pieces.
pub open spec fn join_chars(ls: Seq<Seq<char>>, sep: Seq<char>) -> Seq<char>
    decreases ls.len(),
{
    if ls.len() == 0 {
        Seq::empty()
    } else if ls.len() == 1 {
        ls[0]
    } else {
        ls[0] + sep + join_chars(ls.drop_first(), sep)
    }
}

pub proof fn lemma_join_snoc(ls: Seq<Seq<char>>, sep: Seq<char>, piece: Seq<char>)
    requires
        ls.len() >= 1,
    ensures
        join_chars(ls.push(piece), sep) == join_chars(ls, sep) + sep + piece,
    decreases ls.len(),
{
    if ls.len() == 1 {
        assert(ls.push(piece).drop_first() =~= seq![piece]);
        assert(join_chars(seq![piece], sep) == piece);
        assert(join_chars(ls.push(piece), sep) =~= ls[0] + sep + piece);
    } else {
        assert(ls.push(piece)[0] == ls[0]);
        assert(ls.push(piece).drop_first() =~= ls.drop_first().push(piece));
        lemma_join_snoc(ls.drop_first(), sep, piece);
        assert(join_chars(ls.push(piece), sep) =~= join_chars(ls, sep) + sep + piece);
    }
}

/// Joins the pieces with the separator between consecutive pieces.
pub fn join(ls: &Vec<String>, sep: &str) -> (r: String)
    ensures
        r@ == join_chars(ls.deep_view(), sep@),
{
    let mut r = String::new();
    if ls.len() == 0 {
        return r;
    }
    r.append(ls[0].as_str());
    let mut i: usize = 1;
    proof {
        assert(ls.deep_view().take(1) =~= seq![ls.deep_view()[0]]);
        assert(r@ =~= join_chars(ls.deep_view().take(1), sep@));
    }
    while i < ls.len()
        invariant
            1 <= i <= ls.len(),
            ls.deep_view().len() == ls.len(),
            ls.deep_view()[i - 1] == ls@[i - 1]@,
            r@ == join_chars(ls.deep_view().take(i as int), sep@),
        decreases ls.len() - i,
    {
        r.append(sep);
        r.append(ls[i].as_str());
        proof {
            let dv = ls.deep_view();
            assert(dv.take(i + 1) =~= dv.take(i as int).push(dv[i as int]));
            lemma_join_snoc(dv.take(i as int), sep@, dv[i as int]);
            assert(r@ =~= join_chars(dv.take(i + 1), sep@));
        }
        i = i + 1;
    }
    proof {
        assert(ls.deep_view().take(ls.len() as int) =~= ls.deep_view());
    }
    r
}

} // verus!



verus! {

/// The piece contains no separator.
pub open spec fn sep_free(p: Seq<char>, sep: char) -> bool {
    forall|t: int| 0 <= t < p.len() ==> p[t] != sep
}

/// No piece of a split contains the separator.
pub proof fn lemma_split_sep_free(s: Seq<char>, sep: char)
    ensures
        forall|j: int|
            0 <= j < split_chars(s, sep).len() ==> sep_free(#[trigger] split_chars(s, sep)[j], sep),
    decreases s.len(),
{
    if s.len() == 0 {
        assert(sep_free(split_chars(s, sep)[0], sep));
    } else {
        lemma_split_sep_free(s.drop_first(), sep);
        let r = split_chars(s.drop_first(), sep);
        let l = split_chars(s, sep);
        if s[0] == sep {
            assert forall|j: int| 0 <= j < l.len() implies sep_free(#[trigger] l[j], sep) by {
                if j == 0 {
                } else {
                    assert(l[j] == r[j - 1]);
                }
            }
        } else {
            lemma_split_nonempty(s.drop_first(), sep);
            assert forall|j: int| 0 <= j < l.len() implies sep_free(#[trigger] l[j], sep) by {
                if j == 0 {
                    assert(l[0] == seq![s[0]] + r[0]);
                    assert(sep_free(r[0], sep));
                    assert forall|t: int| 0 <= t < l[0].len() implies l[0][t] != sep by {
                        if t > 0 {
                            assert(l[0][t] == r[0][t - 1]);
                        }
                    }
                } else {
                    assert(l[j] == r[j]);
                }
            }
        }
    }
}

/// A separator-free string splits into just itself.
pub proof fn lemma_split_of_piece(s: Seq<char>, sep: char)
    requires
        sep_free(s, sep),
    ensures
        split_chars(s, sep) == seq![s],
    decreases s.len(),
{
    if s.len() == 0 {
        assert(split_chars(s, sep) =~~= seq![s]);
    } else {
        assert(s[0] != sep);
        assert(sep_free(s.drop_first(), sep)) by {
            assert(forall|t: int|
                0 <= t < s.len() - 1 ==> s.drop_first()[t] == #[trigger] s[t + 1]);
        }
        lemma_split_of_piece(s.drop_first(), sep);
        assert(split_chars(s, sep) =~~= seq![s]) by {
            assert(seq![s[0]] + s.drop_first() =~= s);
        }
    }
}

/// Splitting after a separator-free prefix piece and a separator yields the
/// piece, then the split of the rest.
pub proof fn lemma_split_prefix_piece(piece: Seq<char>, rest: Seq<char>, sep: char)
    requires
        sep_free(piece, sep),
    ensures
        split_chars(piece + seq![sep] + rest, sep) == seq![piece] + split_chars(rest, sep),
    decreases piece.len(),
{
    let s = piece + seq![sep] + rest;
    if piece.len() == 0 {
        assert(s[0] == sep);
        assert(s.drop_first() =~= rest);
        assert(split_chars(s, sep) =~~= seq![piece] + split_chars(rest, sep));
    } else {
        assert(s[0] == piece[0]);
        assert(s[0] != sep);
        assert(sep_free(piece.drop_first(), sep)) by {
            assert(forall|t: int|
                0 <= t < piece.len() - 1 ==> piece.drop_first()[t] == #[trigger] piece[t + 1]);
        }
        assert(s.drop_first() =~= piece.drop_first() + seq![sep] + rest);
        lemma_split_prefix_piece(piece.drop_first(), rest, sep);
        lemma_split_nonempty(rest, sep);
        let r = split_chars(s.drop_first(), sep);
        assert(r == seq![piece.drop_first()] + split_chars(rest, sep));
        assert(r[0] == piece.drop_first());
        assert(split_chars(s, sep) =~~= seq![piece] + split_chars(rest, sep)) by {
            assert(seq![s[0]] + r[0] =~= piece);
            assert(r.drop_first() =~= split_chars(rest, sep));
        }
    }
}

/// Splitting a join of separator-free pieces gives the pieces back.
pub proof fn lemma_split_of_join(ls: Seq<Seq<char>>, sep: char)
    requires
        ls.len() >= 1,
        forall|j: int| 0 <= j < ls.len() ==> sep_free(#[trigger] ls[j], sep),
    ensures
        split_chars(join_chars(ls, seq![sep]), sep) == ls,
    decreases ls.len(),
{
    if ls.len() == 1 {
        lemma_split_of_piece(ls[0], sep);
        assert(split_chars(join_chars(ls, seq![sep]), sep) =~~= ls);
    } else {
        let rest = join_chars(ls.drop_first(), seq![sep]);
        assert(join_chars(ls, seq![sep]) == ls[0] + seq![sep] + rest);
        assert(forall|j: int|
            0 <= j < ls.len() - 1 ==> ls.drop_first()[j] == #[trigger] ls[j + 1]);
        lemma_split_of_join(ls.drop_first(), sep);
        lemma_split_prefix_piece(ls[0], rest, sep);
        assert(split_chars(join_chars(ls, seq![sep]), sep) =~~= ls);
    }
}

} // verus!
