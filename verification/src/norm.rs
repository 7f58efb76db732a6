//! URL normalization: resolving a raw `href` attribute against the absolute
//! URL of the page it was found on.

use vstd::prelude::*;

verus! {

/// The whitespace characters stripped from the ends of a URL.
pub open spec fn is_space(c: char) -> bool {
    c == ' ' || c == '\t' || c == '\n' || c == '\r'
}

/// `s` with leading whitespace removed.
pub open spec fn trim_front(s: Seq<char>) -> Seq<char>
    decreases s.len(),
{
    if s.len() > 0 && is_space(s[0]) {
        trim_front(s.drop_first())
    } else {
        s
    }
}

/// `s` with trailing whitespace removed.
pub open spec fn trim_back(s: Seq<char>) -> Seq<char>
    decreases s.len(),
{
    if s.len() > 0 && is_space(s[s.len() - 1]) {
        trim_back(s.drop_last())
    } else {
        s
    }
}

/// `s` with surrounding whitespace removed.
pub open spec fn spec_trim(s: Seq<char>) -> Seq<char> {
    trim_back(trim_front(s))
}

proof fn lemma_trim_front_subrange(s: Seq<char>, i: int)
    requires
        0 <= i <= s.len(),
        forall|j: int| 0 <= j < i ==> is_space(s[j]),
    ensures
        trim_front(s) == trim_front(s.subrange(i, s.len() as int)),
    decreases i,
{
    if i > 0 {
        lemma_trim_front_subrange(s, i - 1);
        let t = s.subrange(i - 1, s.len() as int);
        assert(t.len() > 0 && is_space(t[0]));
        assert(t.drop_first() =~= s.subrange(i, s.len() as int));
    } else {
        assert(s.subrange(0, s.len() as int) =~= s);
    }
}

proof fn lemma_trim_back_subrange(s: Seq<char>, i: int)
    requires
        0 <= i <= s.len(),
        forall|j: int| i <= j < s.len() ==> is_space(s[j]),
    ensures
        trim_back(s) == trim_back(s.subrange(0, i)),
    decreases s.len() - i,
{
    if i < s.len() {
        assert(s.len() > 0 && is_space(s[s.len() - 1]));
        assert(s.drop_last() =~= s.subrange(0, s.len() - 1));
        lemma_trim_back_subrange(s.subrange(0, s.len() - 1), i);
        assert(s.subrange(0, s.len() - 1).subrange(0, i) =~= s.subrange(0, i));
    } else {
        assert(s.subrange(0, s.len() as int) =~= s);
    }
}

/// Exec test of the whitespace predicate.
fn is_space_char(c: char) -> (r: bool)
    ensures
        r == is_space(c),
{
    c == ' ' || c == '\t' || c == '\n' || c == '\r'
}

/// Strip surrounding whitespace from `s`.
pub fn trimmed<'a>(s: &'a str) -> (r: &'a str)
    ensures
        r@ == spec_trim(s@),
{
    let len: usize = s.unicode_len();
    let mut start: usize = 0;
    while start < len && is_space_char(s.get_char(start))
        invariant
            0 <= start <= len,
            len == s@.len(),
            forall|j: int| 0 <= j < start ==> is_space(s@[j]),
        decreases len - start,
    {
        start = start + 1;
    }
    proof {
        lemma_trim_front_subrange(s@, start as int);
        let front = s@.subrange(start as int, len as int);
        assert(trim_front(front) == front);
    }
    let mut end: usize = len;
    while end > start && is_space_char(s.get_char(end - 1))
        invariant
            start <= end <= len,
            len == s@.len(),
            forall|j: int| 0 <= j < start ==> is_space(s@[j]),
            forall|j: int| end <= j < len ==> is_space(s@[j]),
        decreases end,
    {
        end = end - 1;
    }
    let r = s.substring_char(start, end);
    proof {
        let front = s@.subrange(start as int, len as int);
        assert(forall|j: int| (end - start) <= j < front.len() ==> is_space(
            #[trigger] front[j],
        ));
        lemma_trim_back_subrange(front, end - start);
        assert(front.subrange(0, end - start) =~= s@.subrange(start as int, end as int));
        if end > start {
            assert(!is_space(front[end - start - 1]));
            assert(trim_back(front.subrange(0, end - start)) == front.subrange(0, end - start));
        } else {
            assert(front.subrange(0, 0) =~= Seq::<char>::empty());
        }
    }
    r
}

/// `s` begins with the prefix `p`.
pub open spec fn begins_with(s: Seq<char>, p: Seq<char>) -> bool {
    p.len() <= s.len() && s.subrange(0, p.len() as int) == p
}

/// An href enters normalization only if it is absolute (`http...`) or
/// root/protocol relative (`/...` with more than the bare slash).
pub open spec fn accepted(href: Seq<char>) -> bool {
    begins_with(href, "http"@) || (begins_with(href, "/"@) && href.len() > 1)
}

/// The index of the first `/` in `s` at or after `from`, or `s.len()` if none.
pub open spec fn find_slash_from(s: Seq<char>, from: int) -> int
    decreases s.len() - from,
{
    if from < 0 || from >= s.len() {
        s.len() as int
    } else if s[from] == '/' {
        from
    } else {
        find_slash_from(s, from + 1)
    }
}

/// A base URL can be split as `scheme://host/...`: it holds at least two `/`.
pub open spec fn base_ok(base: Seq<char>) -> bool {
    find_slash_from(base, 0) < base.len() && find_slash_from(base, find_slash_from(base, 0) + 1)
        < base.len()
}

/// The part of `base` before its first `/` (the scheme segment, `http:`).
pub open spec fn scheme_of(base: Seq<char>) -> Seq<char> {
    base.subrange(0, find_slash_from(base, 0))
}

/// The part of `base` between its second and third `/` (the host segment).
pub open spec fn host_of(base: Seq<char>) -> Seq<char> {
    let p2 = find_slash_from(base, find_slash_from(base, 0) + 1);
    base.subrange(p2 + 1, find_slash_from(base, p2 + 1))
}

/// What normalization yields: `None` is rejection; otherwise the absolute
/// URL, trimmed of surrounding whitespace.
pub open spec fn spec_normalize(href: Seq<char>, base: Seq<char>) -> Option<Seq<char>> {
    if !accepted(href) {
        None
    } else if begins_with(href, "//"@) {
        Some(spec_trim("https:"@ + href))
    } else if begins_with(href, "/"@) {
        Some(spec_trim(scheme_of(base) + "//"@ + host_of(base) + spec_trim(href)))
    } else {
        Some(spec_trim(href))
    }
}

/// `s` begins with the prefix `p`, decided character by character.
pub fn begins_with_str(s: &str, p: &str) -> (r: bool)
    ensures
        r == begins_with(s@, p@),
{
    let slen: usize = s.unicode_len();
    let plen: usize = p.unicode_len();
    if plen > slen {
        proof {
            assert(!begins_with(s@, p@));
        }
        return false;
    }
    let mut i: usize = 0;
    while i < plen
        invariant
            0 <= i <= plen <= slen,
            slen == s@.len(),
            plen == p@.len(),
            forall|j: int| 0 <= j < i ==> s@[j] == p@[j],
        decreases plen - i,
    {
        if s.get_char(i) != p.get_char(i) {
            proof {
                assert(s@.subrange(0, plen as int)[i as int] != p@[i as int]);
            }
            return false;
        }
        i = i + 1;
    }
    proof {
        assert(s@.subrange(0, plen as int) =~= p@);
    }
    true
}

/// The index of the first `/` in `s` at or after `from`, or the length if none.
fn find_slash(s: &str, from: usize) -> (r: usize)
    ensures
        r == find_slash_from(s@, from as int),
        from <= r <= s@.len() || (from > s@.len() && r == s@.len()),
{
    let len: usize = s.unicode_len();
    let mut i: usize = from;
    if i >= len {
        return len;
    }
    while i < len && s.get_char(i) != '/'
        invariant
            from <= i <= len,
            len == s@.len(),
            find_slash_from(s@, from as int) == find_slash_from(s@, i as int),
        decreases len - i,
    {
        i = i + 1;
    }
    i
}

/// Whether `base` can serve as the base of a root-relative href: it splits
/// as `scheme://host/...`.
pub fn base_is_splittable(base: &str) -> (r: bool)
    ensures
        r == base_ok(base@),
{
    let len: usize = base.unicode_len();
    let p1 = find_slash(base, 0);
    if p1 >= len {
        return false;
    }
    let p2 = find_slash(base, p1 + 1);
    p2 < len
}

/// Resolve the raw attribute value `href` against the page URL `base`.
///
/// A protocol-relative href gets the `https` scheme; a root-relative href is
/// glued to `base`'s scheme and host; an absolute href passes through; all
/// else is rejected, and every result is trimmed of surrounding whitespace.
pub fn normalize_href(href: &str, base: &str) -> (r: Option<String>)
    requires
        begins_with(href@, "/"@) && !begins_with(href@, "//"@) ==> base_ok(base@),
    ensures
        match r {
            Some(u) => spec_normalize(href@, base@) == Some(u@),
            None => spec_normalize(href@, base@) is None,
        },
{
    proof {
        reveal_strlit("http");
        reveal_strlit("/");
        reveal_strlit("//");
        reveal_strlit("https:");
    }
    let hlen: usize = href.unicode_len();
    if !(begins_with_str(href, "http") || (begins_with_str(href, "/") && hlen > 1)) {
        return None;
    }
    if begins_with_str(href, "//") {
        let glued = String::from_str("https:").concat(href);
        return Some(String::from_str(trimmed(glued.as_str())));
    }
    if begins_with_str(href, "/") {
        let blen: usize = base.unicode_len();
        let p1 = find_slash(base, 0);
        proof {
            assert(p1 < blen);
        }
        let p2 = find_slash(base, p1 + 1);
        proof {
            assert(p2 < blen);
        }
        let p3 = find_slash(base, p2 + 1);
        let scheme = base.substring_char(0, p1);
        let host = base.substring_char(p2 + 1, p3);
        let mut glued = String::from_str(scheme);
        glued.append("//");
        glued.append(host);
        glued.append(trimmed(href));
        return Some(String::from_str(trimmed(glued.as_str())));
    }
    Some(String::from_str(trimmed(href)))
}

} // verus!
