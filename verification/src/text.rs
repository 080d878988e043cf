use vstd::prelude::*;
use vstd::string::StrSliceExecFns;
use vstd::string::StringExecFns;

verus! {

/// Relies on `String::push`: appends one character at the end.
#[verifier::external_body]
pub(crate) fn push_char(s: &mut String, c: char)
    ensures
        final(s)@ == old(s)@.push(c),
{
    s.push(c);
}

/// What `str::to_lowercase` returns; the result depends on the characters
/// of the input alone.
pub uninterp spec fn lower_of(s: Seq<char>) -> Seq<char>;

/// Relies on `str::to_lowercase`: Unicode lowercasing, a pure function of
/// the input characters.
#[verifier::external_body]
pub(crate) fn to_lowercase(s: &str) -> (r: String)
    ensures
        r@ == lower_of(s@),
{
    s.to_lowercase()
}

/// Whether two strings hold the same characters.
pub fn str_eq(a: &str, b: &str) -> (r: bool)
    ensures
        r == (a@ == b@),
{
    let a_len = a.unicode_len();
    let b_len = b.unicode_len();
    if a_len != b_len {
        assert(a@ != b@) by {
            assert(a@.len() != b@.len());
        }
        return false;
    }
    let mut i: usize = 0;
    while i < a_len
        invariant
            a_len == a@.len(),
            b_len == b@.len(),
            a_len == b_len,
            i <= a_len,
            forall|j: int| 0 <= j < i ==> a@[j] == b@[j],
        decreases a_len - i,
    {
        if a.get_char(i) != b.get_char(i) {
            return false;
        }
        i += 1;
    }
    proof {
        assert(a@ =~= b@);
    }
    true
}

/// The characters of `s` with every newline removed.
pub open spec fn spec_strip_newlines(s: Seq<char>) -> Seq<char> {
    s.filter(|c: char| c != '\n')
}

/// Copy of `s` with every newline character removed.
pub fn strip_newlines(s: &str) -> (r: String)
    ensures
        r@ == spec_strip_newlines(s@),
{
    let len = s.unicode_len();
    let mut r = String::new();
    let mut i: usize = 0;
    proof {
        reveal(Seq::filter);
        assert(s@.take(0) =~= Seq::<char>::empty());
    }
    while i < len
        invariant
            len == s@.len(),
            i <= len,
            r@ == s@.take(i as int).filter(|c: char| c != '\n'),
        decreases len - i,
    {
        let c = s.get_char(i);
        proof {
            reveal(Seq::filter);
            assert(s@.take(i + 1).drop_last() =~= s@.take(i as int));
            assert(s@.take(i + 1).last() == s@[i as int]);
        }
        if c != '\n' {
            push_char(&mut r, c);
        }
        i += 1;
    }
    proof {
        assert(s@.take(len as int) =~= s@);
    }
    r
}

/// A message as it is stored when the bound is `max` characters: a longer
/// message keeps its first `max - 3` characters (none where the bound is
/// under three) followed by the marker `"..."`.
pub open spec fn spec_truncate(msg: Seq<char>, max: nat) -> Seq<char> {
    if msg.len() <= max {
        msg
    } else {
        msg.take(if max >= 3 {
            (max - 3) as int
        } else {
            0
        }) + "..."@
    }
}

/// Whether `needle` occurs as a contiguous run of characters in `hay`.
pub open spec fn spec_contains(hay: Seq<char>, needle: Seq<char>) -> bool {
    exists|i: int|
        0 <= i && i + needle.len() <= hay.len() && #[trigger] hay.subrange(i, i + needle.len())
            == needle
}

/// Whether the characters of `hay` starting at `start` are those of `needle`.
fn matches_at(hay: &str, hay_len: usize, needle: &str, needle_len: usize, start: usize) -> (r:
    bool)
    requires
        hay_len == hay@.len(),
        needle_len == needle@.len(),
        start + needle_len <= hay_len,
    ensures
        r == (hay@.subrange(start as int, start + needle@.len()) == needle@),
{
    let mut j: usize = 0;
    while j < needle_len
        invariant
            hay_len == hay@.len(),
            needle_len == needle@.len(),
            start + needle_len <= hay_len,
            j <= needle_len,
            forall|k: int| 0 <= k < j ==> hay@[start + k] == needle@[k],
        decreases needle_len - j,
    {
        if hay.get_char(start + j) != needle.get_char(j) {
            assert(hay@.subrange(start as int, start + needle@.len())[j as int] != needle@[j as int]);
            return false;
        }
        j += 1;
    }
    proof {
        assert(hay@.subrange(start as int, start + needle@.len()) =~= needle@);
    }
    true
}

/// Substring containment test over characters.
pub fn contains_substr(hay: &str, needle: &str) -> (r: bool)
    ensures
        r == spec_contains(hay@, needle@),
{
    let hay_len = hay.unicode_len();
    let needle_len = needle.unicode_len();
    if needle_len > hay_len {
        return false;
    }
    if needle_len == 0 {
        proof {
            assert(hay@.subrange(0, 0 + needle@.len() as int) =~= needle@);
        }
        return true;
    }
    let limit: usize = hay_len - needle_len;
    let mut i: usize = 0;
    while i <= limit
        invariant
            hay_len == hay@.len(),
            needle_len == needle@.len(),
            0 < needle_len <= hay_len,
            limit == hay_len - needle_len,
            i <= limit + 1,
            forall|k: int|
                0 <= k < i ==> #[trigger] hay@.subrange(k, k + needle@.len()) != needle@,
        decreases limit + 1 - i,
    {
        if matches_at(hay, hay_len, needle, needle_len, i) {
            return true;
        }
        i += 1;
    }
    false
}

/// `s` padded on the left with spaces up to `width` characters; a string
/// already at least that long is unchanged.
pub open spec fn spec_pad_left(s: Seq<char>, width: nat) -> Seq<char> {
    if s.len() >= width {
        s
    } else {
        Seq::new((width - s.len()) as nat, |i: int| ' ') + s
    }
}

/// Pad `s` on the left with spaces up to `width` characters.
pub fn pad_left(s: &str, width: usize) -> (r: String)
    ensures
        r@ == spec_pad_left(s@, width as nat),
{
    let len = s.unicode_len();
    if len >= width {
        let mut r = String::new();
        r.append(s);
        proof {
            assert(r@ =~= spec_pad_left(s@, width as nat));
        }
        return r;
    }
    let pad: usize = width - len;
    let mut r = String::new();
    let mut i: usize = 0;
    while i < pad
        invariant
            i <= pad,
            r@ == Seq::new(i as nat, |j: int| ' '),
        decreases pad - i,
    {
        push_char(&mut r, ' ');
        proof {
            assert(r@ =~= Seq::new((i + 1) as nat, |j: int| ' '));
        }
        i += 1;
    }
    r.append(s);
    proof {
        assert(r@ =~= spec_pad_left(s@, width as nat));
    }
    r
}

/// The category names joined with a comma between consecutive names.
pub open spec fn spec_join_commas(cats: Seq<Seq<char>>) -> Seq<char>
    decreases cats.len(),
{
    if cats.len() == 0 {
        Seq::empty()
    } else if cats.len() == 1 {
        cats[0]
    } else {
        spec_join_commas(cats.drop_last()) + ","@ + cats.last()
    }
}

/// Join the category names with commas, as they stand in a display line.
pub fn join_commas(cats: &Vec<String>) -> (r: String)
    ensures
        r@ == spec_join_commas(cats.deep_view()),
{
    let mut r = String::new();
    let mut i: usize = 0;
    proof {
        assert(cats.deep_view().len() == cats@.len());
    }
    while i < cats.len()
        invariant
            i <= cats@.len(),
            cats.deep_view().len() == cats@.len(),
            forall|j: int| 0 <= j < cats@.len() ==> cats.deep_view()[j] == cats@[j]@,
            r@ == spec_join_commas(cats.deep_view().take(i as int)),
        decreases cats@.len() - i,
    {
        if i > 0 {
            r.append(",");
        }
        r.append(cats[i].as_str());
        proof {
            let t = cats.deep_view().take(i + 1);
            assert(t.drop_last() =~= cats.deep_view().take(i as int));
            assert(t.last() == cats.deep_view()[i as int]);
            if i == 0 {
                assert(r@ =~= spec_join_commas(t));
            }
        }
        i += 1;
    }
    proof {
        assert(cats.deep_view().take(cats@.len() as int) =~= cats.deep_view());
    }
    r
}

/// Whether a character counts as a control character: the Unicode `Cc`
/// category, `U+0000` to `U+001F` and `U+007F` to `U+009F`.
pub open spec fn spec_is_control(c: char) -> bool {
    c as u32 <= 0x1F || (0x7F <= c as u32 && c as u32 <= 0x9F)
}

/// The search term as the engine uses it: control characters and newlines
/// removed, then capped at `cap` characters.
pub open spec fn spec_sanitize(s: Seq<char>, cap: nat) -> Seq<char> {
    let kept = s.filter(|c: char| !spec_is_control(c));
    if kept.len() <= cap {
        kept
    } else {
        kept.take(cap as int)
    }
}

/// Remove control characters (newlines among them) from `s` and cap the
/// result at `cap` characters.
pub fn sanitize_term(s: &str, cap: usize) -> (r: String)
    ensures
        r@ == spec_sanitize(s@, cap as nat),
{
    let len = s.unicode_len();
    let mut r = String::new();
    let mut count: usize = 0;
    let mut i: usize = 0;
    proof {
        reveal(Seq::filter);
        assert(s@.take(0) =~= Seq::<char>::empty());
    }
    while i < len
        invariant
            len == s@.len(),
            i <= len,
            count == r@.len(),
            count <= cap,
            ({
                let kept = s@.take(i as int).filter(|c: char| !spec_is_control(c));
                if kept.len() <= cap {
                    r@ == kept
                } else {
                    r@ == kept.take(cap as int)
                }
            }),
        decreases len - i,
    {
        let c = s.get_char(i);
        let cu: u32 = c as u32;
        let is_ctrl: bool = cu <= 0x1F || (0x7F <= cu && cu <= 0x9F);
        proof {
            reveal(Seq::filter);
            assert(s@.take(i + 1).drop_last() =~= s@.take(i as int));
            assert(s@.take(i + 1).last() == s@[i as int]);
            let kept_old = s@.take(i as int).filter(|c: char| !spec_is_control(c));
            let kept_new = s@.take(i + 1).filter(|c: char| !spec_is_control(c));
            if !spec_is_control(s@[i as int]) {
                assert(kept_new == kept_old.push(s@[i as int]));
                if kept_old.len() >= cap {
                    assert(kept_new.take(cap as int) =~= kept_old.take(cap as int));
                    assert(kept_old.take(cap as int) =~= kept_old.take(cap as int));
                    if kept_old.len() == cap {
                        assert(kept_old.take(cap as int) =~= kept_old);
                    }
                }
            } else {
                assert(kept_new == kept_old);
            }
        }
        if !is_ctrl && count < cap {
            push_char(&mut r, c);
            count += 1;
            proof {
                let kept_old = s@.take(i as int).filter(|c: char| !spec_is_control(c));
                let kept_new = s@.take(i + 1).filter(|c: char| !spec_is_control(c));
                if kept_old.len() > cap {
                    assert(false);
                }
                if kept_new.len() > cap {
                    assert(kept_new.take(cap as int) =~= kept_old.push(s@[i as int]));
                }
            }
        }
        i += 1;
    }
    proof {
        assert(s@.take(len as int) =~= s@);
    }
    r
}

} // verus!
