//! Slash-separated relative paths.
//!
//! The relative-path builder accepts full paths as text.  A path is read
//! as the sequence of its non-empty slash-separated segments: repeated
//! and trailing slashes carry no meaning.  A path with a `.` or `..`
//! segment does not name a plain relative location and is rejected.

use vstd::prelude::*;
use vstd::utf8::encode_utf8;

verus! {

/// The byte that separates path segments.
pub open spec fn slash() -> u8 {
    47
}

/// Closes the pending segment: a non-empty segment is appended.
pub open spec fn seal_segment(cur: Seq<u8>) -> Seq<Seq<u8>> {
    if cur.len() > 0 {
        seq![cur]
    } else {
        Seq::empty()
    }
}

/// The non-empty slash-separated segments of `s`, with `cur` the segment
/// bytes read so far.
pub open spec fn segments_from(s: Seq<u8>, cur: Seq<u8>) -> Seq<Seq<u8>>
    decreases s.len(),
{
    if s.len() == 0 {
        seal_segment(cur)
    } else if s.first() == slash() {
        seal_segment(cur) + segments_from(s.skip(1), Seq::empty())
    } else {
        segments_from(s.skip(1), cur.push(s.first()))
    }
}

/// The non-empty slash-separated segments of a path's bytes.
pub open spec fn segments_of(s: Seq<u8>) -> Seq<Seq<u8>> {
    segments_from(s, Seq::empty())
}

/// A segment that names a location: not `.` and not `..`.
pub open spec fn plain_segment(seg: Seq<u8>) -> bool {
    seg != seq![46u8] && seg != seq![46u8, 46u8]
}

/// Every segment names a location.
pub open spec fn plain_segments(segs: Seq<Seq<u8>>) -> bool {
    forall|i: int| 0 <= i < segs.len() ==> plain_segment(#[trigger] segs[i])
}

/// The segments of a path given as text.
pub open spec fn path_segments(path: Seq<char>) -> Seq<Seq<u8>> {
    segments_of(encode_utf8(path))
}

/// A path is well formed when every segment names a location.  (The
/// empty path is well formed and names the root.)
pub open spec fn path_ok(path: Seq<char>) -> bool {
    plain_segments(path_segments(path))
}

/// Whether a segment is `.` or `..`.
fn is_dot_segment(seg: &Vec<u8>) -> (r: bool)
    ensures
        r == !plain_segment(seg@),
{
    if seg.len() == 1 {
        let r = seg[0] == 46;
        proof {
            if r {
                assert(seg@ =~= seq![46u8]);
            } else {
                assert(seg@ != seq![46u8]);
                assert(seg@.len() != 2);
            }
        }
        r
    } else if seg.len() == 2 {
        let r = seg[0] == 46 && seg[1] == 46;
        proof {
            if r {
                assert(seg@ =~= seq![46u8, 46u8]);
            } else {
                assert(seg@ != seq![46u8, 46u8]);
                assert(seg@.len() != 1);
            }
        }
        r
    } else {
        proof {
            assert(seg@.len() != 1 && seg@.len() != 2);
        }
        false
    }
}

/// Splits a path into its segments; `None` when some segment is `.` or
/// `..`.
pub fn parse_path(path: &str) -> (r: Option<Vec<Vec<u8>>>)
    ensures
        match r {
            Some(segs) => {
                &&& path_ok(path@)
                &&& segs.deep_view() == path_segments(path@)
            },
            None => !path_ok(path@),
        },
{
    let bytes = path.as_bytes();
    let n: usize = bytes.len();
    let ghost whole = bytes@;
    let mut segs: Vec<Vec<u8>> = Vec::new();
    let mut cur: Vec<u8> = Vec::new();
    let mut i: usize = 0;
    proof {
        assert(whole.skip(0) =~= whole);
        assert(segs.deep_view() =~= Seq::<Seq<u8>>::empty());
        assert(Seq::<Seq<u8>>::empty() + segments_from(whole, Seq::<u8>::empty())
            =~= segments_of(whole));
        assert(cur@ =~= Seq::<u8>::empty());
    }
    while i < n
        invariant
            i <= n,
            n == whole.len(),
            bytes@ == whole,
            whole == encode_utf8(path@),
            segs.deep_view() + segments_from(whole.skip(i as int), cur@) == segments_of(whole),
            plain_segments(segs.deep_view()),
        decreases n - i,
    {
        proof {
            let rest = whole.skip(i as int);
            assert(rest.first() == whole[i as int]);
            assert(rest.skip(1) =~= whole.skip(i + 1));
        }
        let b = bytes[i];
        if b == 47 {
            if cur.len() > 0 {
                if is_dot_segment(&cur) {
                    proof {
                        let bad = cur@;
                        let done = segs.deep_view();
                        lemma_segments_extend(done, seal_segment(bad), segments_from(
                            whole.skip(i + 1),
                            Seq::empty(),
                        ), segments_of(whole));
                        assert(segments_of(whole)[done.len() as int] == bad);
                        assert(!plain_segments(segments_of(whole)));
                    }
                    return None;
                }
                let ghost old_segs = segs.deep_view();
                let ghost sealed = cur@;
                proof {
                    assert(cur.deep_view() =~= sealed);
                }
                segs.push(cur);
                cur = Vec::new();
                proof {
                    assert(segs.deep_view() =~= old_segs + seq![sealed]);
                    assert(seal_segment(sealed) == seq![sealed]);
                    assert((old_segs + seq![sealed]) + segments_from(whole.skip(i + 1), Seq::empty())
                        =~= old_segs + (seq![sealed] + segments_from(
                        whole.skip(i + 1),
                        Seq::empty(),
                    )));
                    assert forall|j: int| 0 <= j < segs.deep_view().len() implies plain_segment(
                        #[trigger] segs.deep_view()[j],
                    ) by {
                        if j < old_segs.len() {
                            assert(segs.deep_view()[j] == old_segs[j]);
                        } else {
                            assert(segs.deep_view()[j] == sealed);
                        }
                    }
                }
            }
            proof {
                assert(cur@ =~= Seq::<u8>::empty());
            }
        } else {
            cur.push(b);
        }
        i = i + 1;
        proof {
            assert(segs.deep_view() + segments_from(whole.skip(i as int), cur@) == segments_of(
                whole,
            ));
        }
    }
    if cur.len() > 0 {
        if is_dot_segment(&cur) {
            proof {
                let bad = cur@;
                let done = segs.deep_view();
                assert(whole.skip(n as int) =~= Seq::<u8>::empty());
                assert(segments_of(whole) =~= done + seq![bad]);
                assert(segments_of(whole)[done.len() as int] == bad);
            }
            return None;
        }
        let ghost old_segs = segs.deep_view();
        let ghost sealed = cur@;
        proof {
            assert(cur.deep_view() =~= sealed);
        }
        segs.push(cur);
        proof {
            assert(segs.deep_view() =~= old_segs + seq![sealed]);
            assert(whole.skip(n as int) =~= Seq::<u8>::empty());
            assert(segments_from(whole.skip(n as int), sealed) == seq![sealed]);
            assert(segs.deep_view() =~= segments_of(whole));
            assert forall|j: int| 0 <= j < segs.deep_view().len() implies plain_segment(
                #[trigger] segs.deep_view()[j],
            ) by {
                if j < old_segs.len() {
                    assert(segs.deep_view()[j] == old_segs[j]);
                } else {
                    assert(segs.deep_view()[j] == sealed);
                }
            }
        }
        return Some(segs);
    }
    proof {
        assert(whole.skip(n as int) =~= Seq::<u8>::empty());
        assert(segments_from(whole.skip(n as int), cur@) =~= Seq::<Seq<u8>>::empty());
        assert(segs.deep_view() + Seq::<Seq<u8>>::empty() =~= segs.deep_view());
        assert(segs.deep_view() =~= segments_of(whole));
    }
    Some(segs)
}

/// A sealed segment sits at its own index in the final segment list.
proof fn lemma_segments_extend(
    done: Seq<Seq<u8>>,
    sealed: Seq<Seq<u8>>,
    rest: Seq<Seq<u8>>,
    whole: Seq<Seq<u8>>,
)
    requires
        done + (sealed + rest) == whole,
        sealed.len() == 1,
    ensures
        whole[done.len() as int] == sealed[0],
{
    assert(whole[done.len() as int] == (done + (sealed + rest))[done.len() as int]);
}

} // verus!
