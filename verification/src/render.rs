//! Rendering a list for inspection: a bracketed, comma-separated view of
//! the element sequence, each element individually quoted.

use vstd::prelude::*;
use vstd::string::StringExecFns;

use crate::list::{StrList, StrListBuf};

verus! {

/// One element as it appears in the rendering: wrapped in double quotes.
pub open spec fn quoted(s: Seq<char>) -> Seq<char> {
    seq!['"'] + s + seq!['"']
}

/// The quoted elements joined with a comma and a space.
pub open spec fn joined(elems: Seq<Seq<char>>) -> Seq<char>
    decreases elems.len(),
{
    if elems.len() == 0 {
        Seq::empty()
    } else if elems.len() == 1 {
        quoted(elems[0])
    } else {
        quoted(elems[0]) + seq![',', ' '] + joined(elems.drop_first())
    }
}

/// The full rendering: the joined elements between brackets.
pub open spec fn rendered(elems: Seq<Seq<char>>) -> Seq<char> {
    seq!['['] + joined(elems) + seq![']']
}

/// Joining one more element appends it after a separator, except to an
/// empty join.
proof fn lemma_joined_push(elems: Seq<Seq<char>>, e: Seq<char>)
    ensures
        elems.len() == 0 ==> joined(elems.push(e)) == quoted(e),
        elems.len() > 0 ==> joined(elems.push(e)) == joined(elems) + seq![',', ' '] + quoted(e),
    decreases elems.len(),
{
    let l = elems.push(e);
    if elems.len() == 0 {
        assert(l[0] == e);
    } else {
        assert(l.drop_first() =~= elems.drop_first().push(e));
        lemma_joined_push(elems.drop_first(), e);
        assert(joined(l) =~= joined(elems) + seq![',', ' '] + quoted(e));
    }
}

/// Appends one element, quoted, to the rendering being built.
fn append_quoted(out: &mut String, s: &str)
    ensures
        final(out)@ == old(out)@ + quoted(s@),
{
    proof {
        reveal_strlit("\"");
    }
    out.append("\"");
    out.append(s);
    out.append("\"");
    proof {
        assert(final(out)@ =~= old(out)@ + quoted(s@));
    }
}

impl<'a> StrList<'a> {
    /// Renders the element sequence as a bracketed, comma-separated list,
    /// each element individually quoted.
    pub fn render(&self) -> (r: String)
        requires
            self.wf(),
        ensures
            r@ == rendered(self@),
    {
        proof {
            reveal_strlit("[");
        }
        let mut out: String = "[".to_owned();
        let mut it = self.iter();
        let ghost mut done: Seq<Seq<char>> = Seq::empty();
        match it.next() {
            None => {},
            Some(s0) => {
                append_quoted(&mut out, s0);
                proof {
                    done = seq![s0@];
                    assert(joined(done) =~= quoted(s0@));
                    assert(self@ =~= done + it@);
                }
                loop
                    invariant
                        it.wf(),
                        done.len() > 0,
                        self@ == done + it@,
                        out@ == seq!['['] + joined(done),
                    ensures
                        out@ == seq!['['] + joined(self@),
                    decreases it@.len(),
                {
                    match it.next() {
                        None => {
                            proof {
                                assert(done =~= self@);
                            }
                            break;
                        },
                        Some(s) => {
                            proof {
                                reveal_strlit(", ");
                            }
                            out.append(", ");
                            append_quoted(&mut out, s);
                            proof {
                                lemma_joined_push(done, s@);
                                done = done.push(s@);
                                assert(self@ =~= done + it@);
                                assert(out@ =~= seq!['['] + joined(done));
                            }
                        },
                    }
                }
            },
        }
        out.append("]");
        proof {
            reveal_strlit("[");
            reveal_strlit("]");
            assert(out@ =~= rendered(self@));
        }
        out
    }
}

impl StrListBuf {
    /// Renders the buffer's element sequence as a bracketed,
    /// comma-separated list, each element individually quoted.
    pub fn render(&self) -> (r: String)
        requires
            self.wf(),
        ensures
            r@ == rendered(self@),
    {
        self.as_str_list().render()
    }
}

} // verus!
