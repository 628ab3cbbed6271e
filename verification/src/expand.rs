//! Directory expansion: a worklist of pending directories is drained
//! one listing at a time (the caller performs the listings and feeds
//! the children back), collecting the files found; the collected paths
//! are then sorted, deduplicated, and merged with any explicitly
//! selected files.  A directory that cannot be listed is simply
//! dropped from the worklist: expansion is best-effort.

use vstd::prelude::*;
use crate::path::{is_plain_name, join_spec, plain_seg, sanitize_spec, RelPath};
use crate::text::{lemma_lex_connected, lex_lt, str_lex_lt, views};

verus! {

/// The paths are strictly ascending in lexicographic order (so also
/// free of duplicates).
pub open spec fn strictly_sorted(s: Seq<Seq<char>>) -> bool {
    forall|i: int| 0 <= i < s.len() - 1 ==> lex_lt(#[trigger] s[i], s[i + 1])
}

/// `m` holds the path `x`.
pub open spec fn contains_str(m: Seq<Seq<char>>, x: Seq<char>) -> bool {
    exists|i: int| 0 <= i < m.len() && m[i] == x
}

/// An expansion in progress: directories still to list, and the files
/// collected so far, each as a path relative to the root.
pub struct Expander {
    pending: Vec<RelPath>,
    files: Vec<String>,
}

impl Expander {
    /// The directories still waiting to be listed.
    pub closed spec fn pending_model(&self) -> Seq<Seq<Seq<char>>> {
        self.pending@.map_values(|p: RelPath| p@)
    }

    /// The files collected so far.
    pub closed spec fn files_model(&self) -> Seq<Seq<char>> {
        self.files@.map_values(|s: String| s@)
    }

    /// Every pending directory is a well-formed relative path.
    pub closed spec fn wf(&self) -> bool {
        forall|i: int| 0 <= i < self.pending@.len() ==> (#[trigger] self.pending@[i]).wf()
    }

    /// Seeds an expansion with the sanitized forms of the
    /// client-supplied directory paths.
    pub fn new(dirs: &Vec<String>) -> (e: Expander)
        ensures
            e.wf(),
            e.pending_model() == dirs@.map_values(|s: String| sanitize_spec(s@)),
            e.files_model() == Seq::<Seq<char>>::empty(),
    {
        let mut pending: Vec<RelPath> = Vec::new();
        let mut i: usize = 0;
        while i < dirs.len()
            invariant
                i <= dirs@.len(),
                pending@.len() == i,
                forall|j: int| 0 <= j < i ==> (#[trigger] pending@[j]).wf(),
                forall|j: int| 0 <= j < i ==> (#[trigger] pending@[j])@ == sanitize_spec(
                    dirs@[j]@,
                ),
            decreases dirs@.len() - i,
        {
            let p = RelPath::sanitize(dirs[i].as_str());
            pending.push(p);
            i = i + 1;
        }
        let e = Expander { pending, files: Vec::new() };
        proof {
            assert(e.pending_model() =~~= dirs@.map_values(|s: String| sanitize_spec(s@)));
            assert(e.files_model() =~~= Seq::<Seq<char>>::empty());
        }
        e
    }

    /// Takes one directory off the worklist to be listed, if any is
    /// left.
    pub fn pop_pending(&mut self) -> (r: Option<RelPath>)
        requires
            old(self).wf(),
        ensures
            final(self).wf(),
            final(self).files_model() == old(self).files_model(),
            match r {
                None => old(self).pending_model().len() == 0 && final(self).pending_model() == old(
                    self,
                ).pending_model(),
                Some(p) => {
                    &&& old(self).pending_model().len() > 0
                    &&& p.wf()
                    &&& p@ == old(self).pending_model().last()
                    &&& final(self).pending_model() == old(self).pending_model().drop_last()
                },
            },
    {
        let r = self.pending.pop();
        proof {
            if old(self).pending@.len() > 0 {
                assert(self.pending_model() =~~= old(self).pending_model().drop_last());
            }
        }
        r
    }

    /// Records one child of a just-listed directory: a subdirectory
    /// joins the worklist, a file is collected under its path relative
    /// to the root.  A child whose name is not a plain name segment is
    /// ignored.
    pub fn record_child(&mut self, parent: &RelPath, name: &str, is_dir: bool)
        requires
            old(self).wf(),
            parent.wf(),
        ensures
            final(self).wf(),
            if plain_seg(name@) {
                if is_dir {
                    final(self).pending_model() == old(self).pending_model().push(
                        parent@.push(name@),
                    ) && final(self).files_model() == old(self).files_model()
                } else {
                    final(self).files_model() == old(self).files_model().push(
                        join_spec(parent@.push(name@)),
                    ) && final(self).pending_model() == old(self).pending_model()
                }
            } else {
                final(self).pending_model() == old(self).pending_model() && final(self)
                    .files_model() == old(self).files_model()
            },
    {
        if !is_plain_name(name) {
            return ;
        }
        let child = parent.push_seg(name);
        if is_dir {
            self.pending.push(child);
            proof {
                assert(self.pending_model() =~~= old(self).pending_model().push(
                    parent@.push(name@),
                ));
            }
        } else {
            let joined = child.join_str();
            self.files.push(joined);
            proof {
                assert(self.files_model() =~~= old(self).files_model().push(
                    join_spec(parent@.push(name@)),
                ));
            }
        }
    }

    /// Closes the expansion: the collected files, merged with the
    /// explicitly selected ones, sorted and deduplicated.
    pub fn finish(self, explicit: &Vec<String>) -> (r: Vec<String>)
        ensures
            strictly_sorted(views(r@)),
            forall|c: Seq<char>|
                contains_str(views(r@), c) <==> (contains_str(self.files_model(), c)
                    || contains_str(views(explicit@), c)),
    {
        merge_sorted_unique(&self.files, explicit)
    }
}

/// Inserts a path into a strictly sorted vector, keeping it strictly
/// sorted; a path already present is not inserted again.
fn insert_sorted(out: &mut Vec<String>, x: String)
    requires
        strictly_sorted(views(old(out)@)),
    ensures
        strictly_sorted(views(final(out)@)),
        forall|c: Seq<char>|
            contains_str(views(final(out)@), c) <==> (contains_str(views(old(out)@), c) || c
                == x@),
{
    let ghost mo = views(old(out)@);
    let mut i: usize = 0;
    while i < out.len() && str_lex_lt(out[i].as_str(), x.as_str())
        invariant
            *out == *old(out),
            mo == views(out@),
            i <= out@.len(),
            forall|j: int| 0 <= j < i ==> lex_lt(#[trigger] mo[j], x@),
        decreases out@.len() - i,
    {
        proof {
            assert(mo[i as int] == out@[i as int]@);
        }
        i = i + 1;
    }
    proof {
        assert(forall|j: int| 0 <= j < out@.len() ==> #[trigger] mo[j] == out@[j]@);
    }
    if i < out.len() {
        let same = out[i].eq(&x);
        if same {
            proof {
                assert(mo[i as int] == x@);
                assert forall|c: Seq<char>|
                    contains_str(views(out@), c) <==> (contains_str(mo, c) || c == x@) by {
                    if c == x@ {
                        assert(mo[i as int] == c);
                        assert(contains_str(mo, c));
                    }
                }
            }
            return ;
        }
    }
    proof {
        if i < out@.len() {
            assert(!lex_lt(mo[i as int], x@));
            assert(mo[i as int] != x@);
            if !lex_lt(x@, mo[i as int]) {
                lemma_lex_connected(mo[i as int], x@);
                assert(false);
            }
            assert(lex_lt(x@, mo[i as int]));
        }
    }
    out.insert(i, x);
    proof {
        let mf = views(out@);
        let n = mo.len();
        assert forall|j: int| 0 <= j < mf.len() implies #[trigger] mf[j] == (if j < i {
            mo[j]
        } else if j == i {
            x@
        } else {
            mo[j - 1]
        }) by {
            assert(mf[j] == out@[j]@);
            assert(out@ == old(out)@.insert(i as int, x));
        }
        assert forall|a: int| 0 <= a < mf.len() - 1 implies lex_lt(#[trigger] mf[a], mf[a + 1]) by {
            if a + 1 < i {
                assert(mf[a] == mo[a] && mf[a + 1] == mo[a + 1]);
            } else if a + 1 == i {
                assert(mf[a] == mo[a] && mf[a + 1] == x@);
            } else if a == i {
                assert(mf[a] == x@ && mf[a + 1] == mo[a]);
            } else {
                assert(mf[a] == mo[a - 1] && mf[a + 1] == mo[a]);
            }
        }
        assert forall|c: Seq<char>|
            contains_str(mf, c) <==> (contains_str(mo, c) || c == x@) by {
            if contains_str(mf, c) {
                let j = choose|j: int| 0 <= j < mf.len() && mf[j] == c;
                if j < i {
                    assert(mo[j] == c);
                    assert(contains_str(mo, c));
                } else if j == i {
                } else {
                    assert(mo[j - 1] == c);
                    assert(contains_str(mo, c));
                }
            }
            if contains_str(mo, c) {
                let j = choose|j: int| 0 <= j < mo.len() && mo[j] == c;
                if j < i {
                    assert(mf[j] == c);
                } else {
                    assert(mf[j + 1] == c);
                }
                assert(contains_str(mf, c));
            }
            if c == x@ {
                assert(mf[i as int] == c);
                assert(contains_str(mf, c));
            }
        }
    }
}

/// A sorted, duplicate-free vector holding exactly the paths of `a`
/// and `b`.
pub fn merge_sorted_unique(a: &Vec<String>, b: &Vec<String>) -> (r: Vec<String>)
    ensures
        strictly_sorted(views(r@)),
        forall|c: Seq<char>|
            contains_str(views(r@), c) <==> (contains_str(views(a@), c) || contains_str(
                views(b@),
                c,
            )),
{
    let mut out: Vec<String> = Vec::new();
    let mut i: usize = 0;
    proof {
        assert(views(a@).take(0) =~~= Seq::<Seq<char>>::empty());
    }
    while i < a.len()
        invariant
            i <= a@.len(),
            strictly_sorted(views(out@)),
            forall|c: Seq<char>|
                contains_str(views(out@), c) <==> contains_str(views(a@).take(i as int), c),
        decreases a@.len() - i,
    {
        let s = a[i].clone();
        let ghost pre = views(out@);
        proof {
            assert(views(a@)[i as int] == a@[i as int]@);
        }
        insert_sorted(&mut out, s);
        proof {
            assert forall|c: Seq<char>|
                contains_str(views(out@), c) <==> contains_str(
                    views(a@).take(i + 1),
                    c,
                ) by {
                let ta1 = views(a@).take(i + 1);
                let ta = views(a@).take(i as int);
                assert(contains_str(views(out@), c) <==> (contains_str(pre, c) || c == s@));
                if contains_str(ta1, c) {
                    let j = choose|j: int| 0 <= j < ta1.len() && #[trigger] ta1[j] == c;
                    if j < i {
                        assert(ta[j] == c);
                        assert(contains_str(ta, c));
                    } else {
                        assert(c == s@);
                    }
                }
                if contains_str(ta, c) {
                    let j = choose|j: int| 0 <= j < ta.len() && #[trigger] ta[j] == c;
                    assert(ta1[j] == c);
                    assert(contains_str(ta1, c));
                }
                if c == s@ {
                    assert(ta1[i as int] == c);
                    assert(contains_str(ta1, c));
                }
            }
        }
        i = i + 1;
    }
    proof {
        assert(views(a@).take(a@.len() as int) =~~= views(a@));
        assert(views(b@).take(0) =~~= Seq::<Seq<char>>::empty());
    }
    let mut k: usize = 0;
    while k < b.len()
        invariant
            k <= b@.len(),
            strictly_sorted(views(out@)),
            forall|c: Seq<char>|
                contains_str(views(out@), c) <==> (contains_str(views(a@), c) || contains_str(
                    views(b@).take(k as int),
                    c,
                )),
        decreases b@.len() - k,
    {
        let s = b[k].clone();
        let ghost pre = views(out@);
        proof {
            assert(views(b@)[k as int] == b@[k as int]@);
        }
        insert_sorted(&mut out, s);
        proof {
            assert forall|c: Seq<char>|
                contains_str(views(out@), c) <==> (contains_str(views(a@), c) || contains_str(
                    views(b@).take(k + 1),
                    c,
                )) by {
                let tb1 = views(b@).take(k + 1);
                let tb = views(b@).take(k as int);
                assert(contains_str(views(out@), c) <==> (contains_str(pre, c) || c == s@));
                if contains_str(tb1, c) {
                    let j = choose|j: int| 0 <= j < tb1.len() && #[trigger] tb1[j] == c;
                    if j < k {
                        assert(tb[j] == c);
                        assert(contains_str(tb, c));
                    } else {
                        assert(c == s@);
                    }
                }
                if contains_str(tb, c) {
                    let j = choose|j: int| 0 <= j < tb.len() && #[trigger] tb[j] == c;
                    assert(tb1[j] == c);
                    assert(contains_str(tb1, c));
                }
                if c == s@ {
                    assert(tb1[k as int] == c);
                    assert(contains_str(tb1, c));
                }
            }
        }
        k = k + 1;
    }
    proof {
        assert(views(b@).take(b@.len() as int) =~~= views(b@));
    }
    out
}

} // verus!
