use crate::lexer::{fault_view, span, Fault, FaultView};
use crate::parser::{lemma_statements_view, statement_view, statements_view, strings_view, Statement, StatementValue, StatementValueView, StatementView};
use std::ops::Range;
use vstd::prelude::*;

verus! {

// Include resolution runs as a dialogue: the preprocessor moves statements to its
// output until it meets an `include`, and asks for that file; the caller finds, reads,
// lexes and parses it, and hands its statements back, which are then spliced in at
// the include site.

/// A file being expanded: the statements still to go through, and the stack of files
/// included on the way to it (itself last).
struct Frame {
    pending: Vec<Statement>,
    files: Vec<String>,
}

pub struct FrameView {
    pub pending: Seq<StatementView>,
    pub files: Seq<Seq<char>>,
}

impl View for Frame {
    type V = FrameView;

    closed spec fn view(&self) -> FrameView {
        FrameView { pending: statements_view(self.pending@), files: strings_view(self.files@) }
    }
}

/// Goes through the pending statements of the innermost file, moving each to `out`,
/// until an include is met (its path is asked for) or every file is done.
pub open spec fn advance(frames: Seq<FrameView>, out: Seq<StatementView>) -> (Seq<FrameView>, Seq<StatementView>, Option<Seq<char>>)
    decreases frames.len(), if frames.len() > 0 { frames.last().pending.len() } else { 0 },
{
    if frames.len() == 0 {
        (frames, out, None)
    } else {
        let top = frames.last();
        if top.pending.len() == 0 {
            advance(frames.drop_last(), out)
        } else {
            let s = top.pending[0];
            let rest = frames.drop_last().push(FrameView { pending: top.pending.drop_first(), files: top.files });
            match s.value {
                StatementValueView::Include(path) => (rest, out, Some(path)),
                _ => advance(rest, out.push(s)),
            }
        }
    }
}

/// The files on the way to the innermost one being expanded.
pub open spec fn open_files(frames: Seq<FrameView>) -> Seq<Seq<char>> {
    if frames.len() == 0 {
        Seq::empty()
    } else {
        frames.last().files
    }
}

pub open spec fn recursive_include(path: Seq<char>) -> FaultView {
    ("recursive include of '"@ + path + "'"@, span(1, 0))
}

pub open spec fn option_view(o: Option<String>) -> Option<Seq<char>> {
    match o {
        Some(s) => Some(s@),
        None => None,
    }
}

proof fn lemma_remove_first(v: Seq<Statement>)
    requires
        v.len() > 0,
    ensures
        statements_view(v.remove(0)) == statements_view(v).drop_first(),
        statements_view(v)[0] == statement_view(v[0]),
{
    lemma_statements_view(v);
    lemma_statements_view(v.remove(0));
    assert(statements_view(v.remove(0)) =~= statements_view(v).drop_first());
}

pub struct Preprocessor {
    pub statements: Vec<Statement>,
    frames: Vec<Frame>,
}

impl Preprocessor {
    /// The statements put out so far.
    pub closed spec fn output(&self) -> Seq<StatementView> {
        statements_view(self.statements@)
    }

    /// The files being expanded, the innermost last.
    pub closed spec fn frames(&self) -> Seq<FrameView> {
        self.frames@.map_values(|f: Frame| f@)
    }

    pub fn new() -> (r: Self)
        ensures
            r.output() == Seq::<StatementView>::empty(),
            r.frames() == Seq::<FrameView>::empty(),
    {
        let r = Preprocessor { statements: Vec::new(), frames: Vec::new() };
        assert(r.output() =~= Seq::<StatementView>::empty());
        assert(r.frames() =~= Seq::<FrameView>::empty());
        r
    }

    fn advance(&mut self) -> (r: Option<String>)
        ensures
            (final(self).frames(), final(self).output(), option_view(r)) == advance(old(self).frames(), old(self).output()),
    {
        loop
            invariant
                advance(self.frames(), self.output()) == advance(old(self).frames(), old(self).output()),
            decreases self.frames@.len(), if self.frames@.len() > 0 { self.frames@.last().pending@.len() } else { 0 },
        {
            let ghost frames = self.frames();
            let ghost out = self.output();
            if self.frames.len() == 0 {
                return None;
            }
            let mut top = match self.frames.pop() {
                Some(top) => top,
                None => return None,
            };
            assert(self.frames() =~= frames.drop_last());
            assert(top@ == frames.last());
            if top.pending.len() == 0 {
                continue ;
            }
            proof {
                lemma_remove_first(top.pending@);
            }
            let statement = top.pending.remove(0);
            self.frames.push(top);
            assert(self.frames() =~= frames.drop_last().push(
                FrameView { pending: frames.last().pending.drop_first(), files: frames.last().files },
            ));
            match statement.value {
                StatementValue::Include(path) => {
                    return Some(path);
                },
                _ => {
                    proof {
                        assert(self.statements@.push(statement).drop_last() =~= self.statements@);
                    }
                    self.statements.push(statement);
                },
            }
        }
    }

    /// Starts expanding `input`, a file reached through `included_files` (itself
    /// last): its statements go to the output in order until an include is met, whose
    /// path is returned for the caller to resolve. `None` when everything is done.
    pub fn preprocess(&mut self, input: Vec<Statement>, included_files: Vec<String>) -> (r: Option<String>)
        ensures
            (final(self).frames(), final(self).output(), option_view(r)) == advance(
                old(self).frames().push(FrameView { pending: statements_view(input@), files: strings_view(included_files@) }),
                old(self).output(),
            ),
    {
        let frame = Frame { pending: input, files: included_files };
        self.frames.push(frame);
        assert(self.frames() =~= old(self).frames().push(frame@));
        self.advance()
    }

    /// Hands over the statements of the file that the last request resolved to `path`.
    /// A path already on the way to the innermost file is a recursive include and an
    /// error; otherwise the statements are expanded in place of the include, and the
    /// next request is returned as by `preprocess`.
    pub fn resolved(&mut self, path: String, statements: Vec<Statement>) -> (r: Result<Option<String>, Fault>)
        ensures
            open_files(old(self).frames()).contains(path@) ==> r is Err && fault_view(r->Err_0) == recursive_include(path@)
                && final(self).frames() == old(self).frames() && final(self).output() == old(self).output(),
            !open_files(old(self).frames()).contains(path@) ==> r is Ok && (final(self).frames(), final(self).output(), option_view(r->Ok_0))
                == advance(
                old(self).frames().push(
                    FrameView { pending: statements_view(statements@), files: open_files(old(self).frames()).push(path@) },
                ),
                old(self).output(),
            ),
    {
        let ghost frames = self.frames();
        let mut files: Vec<String> = Vec::new();
        let n = self.frames.len();
        if n > 0 {
            let top = &self.frames[n - 1];
            assert(top@ == frames.last());
            let ghost fv = strings_view(top.files@);
            let mut k: usize = 0;
            while k < top.files.len()
                invariant
                    fv == strings_view(top.files@),
                    frames == old(self).frames(),
                    frames.len() > 0,
                    fv == frames.last().files,
                    *self == *old(self),
                    k <= fv.len(),
                    strings_view(files@) == fv.subrange(0, k as int),
                    forall|a: int| 0 <= a < k ==> fv[a] != path@,
                decreases fv.len() - k,
            {
                assert(fv[k as int] == top.files@[k as int]@);
                if top.files[k] == path {
                    assert(open_files(frames)[k as int] == path@);
                    let mut m = String::from_str("recursive include of '");
                    m.append(path.as_str());
                    m.append("'");
                    return Err((m, Range { start: 1, end: 0 }));
                }
                let ghost before = strings_view(files@);
                files.push(top.files[k].clone());
                assert(strings_view(files@) =~= before.push(fv[k as int]));
                k += 1;
                assert(fv.subrange(0, k as int) =~= before.push(fv[k - 1]));
            }
            assert(fv.subrange(0, k as int) =~= fv);
        } else {
            assert(strings_view(files@) =~= Seq::<Seq<char>>::empty());
        }
        assert(!open_files(frames).contains(path@));
        let ghost before = strings_view(files@);
        files.push(path);
        assert(strings_view(files@) =~= before.push(path@));
        let frame = Frame { pending: statements, files };
        self.frames.push(frame);
        assert(self.frames() =~= frames.push(frame@));
        Ok(self.advance())
    }

    /// The innermost file being expanded.
    pub fn current_file(&self) -> (r: Option<&String>)
        ensures
            r is Some <==> open_files(self.frames()).len() > 0,
            r is Some ==> r->0@ == open_files(self.frames()).last(),
    {
        let n = self.frames.len();
        if n == 0 {
            return None;
        }
        let top = &self.frames[n - 1];
        assert(top@ == self.frames().last());
        let m = top.files.len();
        if m == 0 {
            return None;
        }
        assert(strings_view(top.files@)[m - 1] == top.files@[m - 1]@);
        Some(&top.files[m - 1])
    }
}

} // verus!
