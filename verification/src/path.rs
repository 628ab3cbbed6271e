//! Path sanitization: a client-supplied path is reduced to the plain
//! name segments it contains, so that resolving it under the served
//! root can never reach outside that root.  Hostile input degrades to
//! an empty or partial path; nothing is rejected with an error.

use vstd::prelude::*;
use crate::text::{chars_to_string, push_char, str_to_chars};

verus! {

/// `c` separates path segments.
pub open spec fn is_sep(c: char) -> bool {
    c == '/' || c == '\\'
}

/// A plain name segment: non-empty, free of separators, and neither of
/// the relative navigation names `.` and `..`.
pub open spec fn plain_seg(s: Seq<char>) -> bool {
    &&& s.len() > 0
    &&& (forall|i: int| 0 <= i < s.len() ==> !is_sep(#[trigger] s[i]))
    &&& s != seq!['.']
    &&& s != seq!['.', '.']
}

/// A segment the sanitizer keeps: plain, and free of the drive-prefix
/// marker `:`.
pub open spec fn keep_seg(s: Seq<char>) -> bool {
    &&& plain_seg(s)
    &&& (forall|i: int| 0 <= i < s.len() ==> #[trigger] s[i] != ':')
}

/// The segments distilled out of `s` once the partial segment `cur`
/// has already been read.
pub open spec fn sani(s: Seq<char>, cur: Seq<char>) -> Seq<Seq<char>>
    decreases s.len(),
{
    if s.len() == 0 {
        if keep_seg(cur) {
            seq![cur]
        } else {
            Seq::empty()
        }
    } else if is_sep(s[0]) {
        (if keep_seg(cur) {
            seq![cur]
        } else {
            Seq::empty()
        }) + sani(s.drop_first(), Seq::empty())
    } else {
        sani(s.drop_first(), cur.push(s[0]))
    }
}

/// What sanitizing a client-supplied path yields: its kept segments,
/// in order.
pub open spec fn sanitize_spec(s: Seq<char>) -> Seq<Seq<char>> {
    sani(s, Seq::empty())
}

/// Everything `sani` emits satisfies `keep_seg`.
proof fn lemma_sani_keeps_only(s: Seq<char>, cur: Seq<char>)
    ensures
        forall|i: int| 0 <= i < sani(s, cur).len() ==> keep_seg(#[trigger] sani(s, cur)[i]),
    decreases s.len(),
{
    if s.len() == 0 {
        if keep_seg(cur) {
            assert forall|i: int| 0 <= i < sani(s, cur).len() implies keep_seg(
                #[trigger] sani(s, cur)[i],
            ) by {
                assert(sani(s, cur) == seq![cur]);
                assert(sani(s, cur)[0] == cur);
            }
        }
    } else if is_sep(s[0]) {
        lemma_sani_keeps_only(s.drop_first(), Seq::empty());
        let head: Seq<Seq<char>> = if keep_seg(cur) {
            seq![cur]
        } else {
            Seq::empty()
        };
        let tail = sani(s.drop_first(), Seq::empty());
        assert(sani(s, cur) == head + tail);
        assert forall|i: int| 0 <= i < sani(s, cur).len() implies keep_seg(
            #[trigger] sani(s, cur)[i],
        ) by {
            if i < head.len() {
                assert(head[0] == cur);
                assert(sani(s, cur)[i] == cur);
            } else {
                assert(sani(s, cur)[i] == tail[i - head.len()]);
            }
        }
    } else {
        lemma_sani_keeps_only(s.drop_first(), cur.push(s[0]));
        let tail = sani(s.drop_first(), cur.push(s[0]));
        assert(sani(s, cur) == tail);
        assert forall|i: int| 0 <= i < sani(s, cur).len() implies keep_seg(
            #[trigger] sani(s, cur)[i],
        ) by {
            assert(keep_seg(tail[i]));
        }
    }
}

/// No segment the sanitizer returns can navigate upward: every one is
/// a plain name, never `..`, `.`, an empty (absolute-root) segment, or
/// a drive prefix.  Joining the result under a root therefore always
/// names the root itself or a descendant of it.
pub proof fn lemma_sanitize_no_escape(s: Seq<char>)
    ensures
        forall|i: int|
            0 <= i < sanitize_spec(s).len() ==> keep_seg(#[trigger] sanitize_spec(s)[i]),
{
    lemma_sani_keeps_only(s, Seq::empty());
}

/// A sanitized relative path: a sequence of plain name segments.
pub struct RelPath {
    segs: Vec<String>,
}

impl View for RelPath {
    type V = Seq<Seq<char>>;

    closed spec fn view(&self) -> Seq<Seq<char>> {
        self.segs@.map_values(|s: String| s@)
    }
}

/// The segments of `segs` joined with `/`.
pub open spec fn join_spec(segs: Seq<Seq<char>>) -> Seq<char>
    decreases segs.len(),
{
    if segs.len() == 0 {
        Seq::empty()
    } else if segs.len() == 1 {
        segs[0]
    } else {
        join_spec(segs.drop_last()) + seq!['/'] + segs.last()
    }
}

impl RelPath {
    /// Every segment of the path is a plain name.
    pub open spec fn wf(&self) -> bool {
        forall|i: int| 0 <= i < self@.len() ==> plain_seg(#[trigger] self@[i])
    }

    /// The path naming the root itself.
    pub fn root() -> (r: RelPath)
        ensures
            r@ == Seq::<Seq<char>>::empty(),
            r.wf(),
    {
        let r = RelPath { segs: Vec::new() };
        proof {
            assert(r@ =~= Seq::<Seq<char>>::empty());
        }
        r
    }

    /// Reduces a client-supplied path to its kept segments.
    pub fn sanitize(input: &str) -> (r: RelPath)
        ensures
            r@ == sanitize_spec(input@),
            r.wf(),
    {
        let v = str_to_chars(input);
        let mut out: Vec<String> = Vec::new();
        let mut cur: Vec<char> = Vec::new();
        let mut i: usize = 0;
        proof {
            assert(input@.skip(0) =~= input@);
            assert(out@.map_values(|s: String| s@) =~~= Seq::<Seq<char>>::empty());
        }
        while i < v.len()
            invariant
                v@ == input@,
                i <= v@.len(),
                out@.map_values(|s: String| s@) + sani(input@.skip(i as int), cur@)
                    =~~= sanitize_spec(input@),
            decreases v@.len() - i,
        {
            let c = v[i];
            proof {
                assert(input@.skip(i as int)[0] == input@[i as int]);
                assert(input@.skip(i as int).drop_first() =~= input@.skip(i + 1));
            }
            if c == '/' || c == '\\' {
                if keep_check(&cur) {
                    let seg = chars_to_string(&cur);
                    out.push(seg);
                    proof {
                        assert(out@.map_values(|s: String| s@) =~~= out@.drop_last().map_values(
                            |s: String| s@,
                        ).push(cur@));
                    }
                }
                cur = Vec::new();
            } else {
                cur.push(c);
            }
            i = i + 1;
        }
        proof {
            assert(input@.skip(i as int) =~= Seq::<char>::empty());
        }
        if keep_check(&cur) {
            let seg = chars_to_string(&cur);
            out.push(seg);
            proof {
                assert(out@.map_values(|s: String| s@) =~~= out@.drop_last().map_values(
                    |s: String| s@,
                ).push(cur@));
            }
        }
        let r = RelPath { segs: out };
        proof {
            lemma_sanitize_no_escape(input@);
        }
        r
    }

    /// Extends the path by one plain name segment.
    pub fn push_seg(&self, name: &str) -> (r: RelPath)
        requires
            self.wf(),
            plain_seg(name@),
        ensures
            r@ == self@.push(name@),
            r.wf(),
    {
        let mut segs: Vec<String> = Vec::new();
        let mut i: usize = 0;
        while i < self.segs.len()
            invariant
                i <= self.segs@.len(),
                segs@.len() == i,
                forall|j: int| 0 <= j < i ==> #[trigger] segs@[j]@ == self@[j],
            decreases self.segs@.len() - i,
        {
            let seg = self.segs[i].clone();
            proof {
                assert(seg == self.segs@[i as int]);
                assert(seg@ == self@[i as int]);
            }
            segs.push(seg);
            i = i + 1;
        }
        let mut owned = String::new();
        owned.append(name);
        proof {
            assert(owned@ =~= name@);
        }
        segs.push(owned);
        let r = RelPath { segs };
        proof {
            assert forall|j: int| 0 <= j < r@.len() implies r@[j] == self@.push(name@)[j] by {
                assert(r@[j] == segs@[j]@);
            }
            assert(r@ =~~= self@.push(name@));
        }
        r
    }

    /// The path's segments joined with `/`; empty for the root path.
    pub fn join_str(&self) -> (r: String)
        ensures
            r@ == join_spec(self@),
    {
        let mut r = String::new();
        let mut i: usize = 0;
        proof {
            assert(join_spec(self@.take(0)) =~= Seq::<char>::empty());
        }
        while i < self.segs.len()
            invariant
                i <= self.segs@.len(),
                r@ == join_spec(self@.take(i as int)),
            decreases self.segs@.len() - i,
        {
            if i > 0 {
                push_char(&mut r, '/');
            }
            r.append(self.segs[i].as_str());
            i = i + 1;
            proof {
                assert(self@.take(i as int).drop_last() =~= self@.take(i - 1));
                assert(self@.take(i as int).last() == self@[i - 1]);
                assert(r@ =~= join_spec(self@.take(i as int)));
            }
        }
        proof {
            assert(self@.take(i as int) =~= self@);
        }
        r
    }
}

/// `name` is a plain name segment, fit to extend a relative path.
pub fn is_plain_name(name: &str) -> (r: bool)
    ensures
        r == plain_seg(name@),
{
    let v = str_to_chars(name);
    if v.len() == 0 {
        return false;
    }
    if v.len() == 1 {
        let c = v[0];
        if c == '.' {
            proof {
                assert(name@ =~= seq!['.']);
            }
            return false;
        }
    }
    if v.len() == 2 {
        let c0 = v[0];
        let c1 = v[1];
        if c0 == '.' && c1 == '.' {
            proof {
                assert(name@ =~= seq!['.', '.']);
            }
            return false;
        }
    }
    let mut i: usize = 0;
    while i < v.len()
        invariant
            v@ == name@,
            i <= v@.len(),
            forall|j: int| 0 <= j < i ==> !is_sep(#[trigger] name@[j]),
        decreases v@.len() - i,
    {
        let c = v[i];
        if c == '/' || c == '\\' {
            return false;
        }
        i = i + 1;
    }
    proof {
        if name@.len() == 1 {
            assert(name@[0] != '.' ==> name@ != seq!['.']) by {
                assert(seq!['.'][0] == '.');
            }
        }
        if name@.len() == 2 {
            assert(!(name@[0] == '.' && name@[1] == '.') ==> name@ != seq!['.', '.']) by {
                assert(seq!['.', '.'][0] == '.');
                assert(seq!['.', '.'][1] == '.');
            }
        }
        assert(name@.len() != 1 ==> name@ != seq!['.']);
        assert(name@.len() != 2 ==> name@ != seq!['.', '.']);
    }
    true
}

/// `cur` spells a segment the sanitizer keeps.
fn keep_check(cur: &Vec<char>) -> (r: bool)
    ensures
        r == keep_seg(cur@),
{
    if cur.len() == 0 {
        return false;
    }
    if cur.len() == 1 {
        let c = cur[0];
        if c == '.' {
            proof {
                assert(cur@ =~= seq!['.']);
            }
            return false;
        }
    }
    if cur.len() == 2 {
        let c0 = cur[0];
        let c1 = cur[1];
        if c0 == '.' && c1 == '.' {
            proof {
                assert(cur@ =~= seq!['.', '.']);
            }
            return false;
        }
    }
    let mut i: usize = 0;
    while i < cur.len()
        invariant
            i <= cur@.len(),
            forall|j: int| 0 <= j < i ==> !is_sep(#[trigger] cur@[j]) && cur@[j] != ':',
        decreases cur@.len() - i,
    {
        let c = cur[i];
        if c == '/' || c == '\\' || c == ':' {
            return false;
        }
        i = i + 1;
    }
    proof {
        if cur@.len() == 1 {
            assert(cur@[0] != '.' ==> cur@ != seq!['.']) by {
                assert(seq!['.'][0] == '.');
            }
        }
        if cur@.len() == 2 {
            assert(!(cur@[0] == '.' && cur@[1] == '.') ==> cur@ != seq!['.', '.']) by {
                assert(seq!['.', '.'][0] == '.');
                assert(seq!['.', '.'][1] == '.');
            }
        }
        assert(cur@.len() != 1 ==> cur@ != seq!['.']);
        assert(cur@.len() != 2 ==> cur@ != seq!['.', '.']);
    }
    true
}

} // verus!
