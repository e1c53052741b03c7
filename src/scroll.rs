use vstd::prelude::*;
use vstd::string::*;

verus! {

/// Most lines a scroll buffer keeps.
pub const CAPACITY: usize = 100;

/// The pieces of a text between its newlines, in order. There is always at
/// least one: the last is the line still being written, empty when the text
/// ends with a newline.
pub open spec fn split_pieces(s: Seq<char>) -> Seq<Seq<char>>
    decreases s.len(),
{
    if s.len() == 0 {
        seq![Seq::empty()]
    } else {
        let prev = split_pieces(s.drop_last());
        if s.last() == '\n' {
            prev.push(Seq::empty())
        } else {
            prev.update(prev.len() - 1, prev.last().push(s.last()))
        }
    }
}

/// The lines that pieces stand for: all of them, but an empty last piece,
/// which no character has opened yet, is no line.
pub open spec fn lines_of(p: Seq<Seq<char>>) -> Seq<Seq<char>> {
    if p.len() > 0 && p.last().len() == 0 {
        p.drop_last()
    } else {
        p
    }
}

/// The lines of a text: split at each newline, where a final newline ends the
/// last line and opens no new one.
pub open spec fn text_lines(s: Seq<char>) -> Seq<Seq<char>> {
    lines_of(split_pieces(s))
}

/// The pieces of text `a` followed by text `b`, from the pieces of each: the
/// last piece of `a` is continued by the first piece of `b`.
pub open spec fn merge_lines(a: Seq<Seq<char>>, b: Seq<Seq<char>>) -> Seq<Seq<char>> {
    a.drop_last().push(a.last() + b[0]) + b.drop_first()
}

/// The last `n` lines, or all of them when there are fewer.
pub open spec fn keep_last(x: Seq<Seq<char>>, n: nat) -> Seq<Seq<char>> {
    if x.len() > n {
        x.subrange(x.len() - n, x.len() as int)
    } else {
        x
    }
}

/// How many trailing pieces hold the last `CAPACITY` lines: one more when the
/// last piece is an empty open line.
pub open spec fn kept(p: Seq<Seq<char>>) -> nat {
    let limit = if p.last().len() == 0 {
        CAPACITY + 1
    } else {
        CAPACITY as int
    };
    if p.len() < limit {
        p.len()
    } else {
        limit as nat
    }
}

/// The pieces that hold the last `CAPACITY` lines, with the open last piece.
pub open spec fn trim(p: Seq<Seq<char>>) -> Seq<Seq<char>> {
    p.subrange(p.len() - kept(p), p.len() as int)
}

/// The lines joined with `'\n'` between each two.
pub open spec fn join_lines(ls: Seq<Seq<char>>) -> Seq<char>
    decreases ls.len(),
{
    if ls.len() == 0 {
        Seq::empty()
    } else if ls.len() == 1 {
        ls[0]
    } else {
        join_lines(ls.drop_last()) + seq!['\n'] + ls.last()
    }
}

/// A bounded, ordered history of output text. It keeps the text as pieces
/// between newlines, the last of which is the line still being written.
pub struct ScrollBuffer {
    pieces: Vec<String>,
}

impl ScrollBuffer {
    /// The pieces held: the lines, then an empty open piece when the output so
    /// far ends with a newline.
    pub closed spec fn pieces(&self) -> Seq<Seq<char>> {
        self.pieces@.map_values(|l: String| l@)
    }
}

impl View for ScrollBuffer {
    type V = Seq<Seq<char>>;

    /// The lines held, oldest first.
    open spec fn view(&self) -> Seq<Seq<char>> {
        lines_of(self.pieces())
    }
}

/// Splits a text into its pieces between newlines.
fn split_text(text: &str) -> (r: Vec<String>)
    ensures
        r@.map_values(|l: String| l@) == split_pieces(text@),
{
    let n = text.unicode_len();
    let ghost s = text@;
    let mut pieces: Vec<String> = Vec::new();
    let mut start: usize = 0;
    let mut i: usize = 0;
    proof {
        assert(s.subrange(0, 0) =~= Seq::<char>::empty());
        assert(pieces@.map_values(|l: String| l@).push(s.subrange(0, 0)) =~= seq![Seq::<char>::empty()]);
    }
    while i < n
        invariant
            n == s.len(),
            s == text@,
            start <= i <= n,
            pieces@.map_values(|l: String| l@).push(s.subrange(start as int, i as int))
                == split_pieces(s.subrange(0, i as int)),
        decreases n - i,
    {
        let ghost before = pieces@.map_values(|l: String| l@);
        proof {
            assert(s.subrange(0, i + 1 as int).drop_last() =~= s.subrange(0, i as int));
        }
        if text.get_char(i) == '\n' {
            let piece = String::from_str(text.substring_char(start, i));
            pieces.push(piece);
            proof {
                assert(pieces@.map_values(|l: String| l@) =~= before.push(
                    s.subrange(start as int, i as int),
                ));
                assert(s.subrange(i + 1 as int, i + 1 as int) =~= Seq::<char>::empty());
            }
            start = i + 1;
        } else {
            proof {
                assert(s.subrange(start as int, i + 1 as int) =~= s.subrange(
                    start as int,
                    i as int,
                ).push(s[i as int]));
                assert(before.push(s.subrange(start as int, i + 1 as int)) =~= before.push(
                    s.subrange(start as int, i as int),
                ).update(before.len() as int, s.subrange(start as int, i as int).push(s[i as int])));
            }
        }
        i = i + 1;
    }
    let last = String::from_str(text.substring_char(start, n));
    let ghost before = pieces@.map_values(|l: String| l@);
    pieces.push(last);
    proof {
        assert(pieces@.map_values(|l: String| l@) =~= before.push(s.subrange(start as int, n as int)));
        assert(s.subrange(0, n as int) =~= s);
    }
    pieces
}

impl ScrollBuffer {
    /// The buffer holds at least one piece and at most `CAPACITY` lines.
    pub open spec fn wf(&self) -> bool {
        &&& self.pieces().len() >= 1
        &&& self@.len() <= CAPACITY
    }

    /// An empty buffer: no lines, and an empty open piece.
    pub fn new() -> (r: ScrollBuffer)
        ensures
            r.pieces() == split_pieces(Seq::empty()),
            r@.len() == 0,
            r.wf(),
    {
        let mut pieces: Vec<String> = Vec::new();
        pieces.push(String::new());
        let r = ScrollBuffer { pieces };
        proof {
            assert(r.pieces() =~= seq![Seq::<char>::empty()]);
        }
        r
    }

    /// Whether the last piece is empty, so that it stands for no line.
    fn open_piece_empty(&self) -> (r: bool)
        requires
            self.pieces().len() >= 1,
        ensures
            r == (self.pieces().last().len() == 0),
    {
        let n = self.pieces.len();
        self.pieces[n - 1].as_str().is_empty()
    }

    /// Number of lines held.
    pub fn len(&self) -> (r: usize)
        requires
            self.wf(),
        ensures
            r == self@.len(),
    {
        let n = self.pieces.len();
        if self.open_piece_empty() {
            n - 1
        } else {
            n
        }
    }

    /// Appends a chunk of output. The chunk's first piece continues the line
    /// being written, each newline ends a line, and then only the most recent
    /// `CAPACITY` lines are kept.
    pub fn append(&mut self, text: &str)
        requires
            old(self).wf(),
        ensures
            final(self).wf(),
            final(self).pieces() == trim(merge_lines(old(self).pieces(), split_pieces(text@))),
    {
        let ghost old_v = self.pieces();
        let pieces = split_text(text);
        let ghost p = pieces@.map_values(|l: String| l@);
        proof {
            lemma_split_pieces_nonempty(text@);
        }
        let mut last = match self.pieces.pop() {
            Some(l) => l,
            None => String::new(),
        };
        last.append(pieces[0].as_str());
        self.pieces.push(last);
        proof {
            assert(self.pieces() =~= merge_lines(old_v, p.take(1)));
        }
        let mut k: usize = 1;
        while k < pieces.len()
            invariant
                1 <= k <= pieces@.len(),
                p == pieces@.map_values(|l: String| l@),
                p.len() >= 1,
                old_v.len() >= 1,
                self.pieces() == merge_lines(old_v, p.take(k as int)),
            decreases pieces@.len() - k,
        {
            let ghost before = self.pieces();
            self.pieces.push(pieces[k].clone());
            proof {
                assert(self.pieces() =~= before.push(p[k as int]));
                assert(merge_lines(old_v, p.take(k + 1 as int)) =~= merge_lines(
                    old_v,
                    p.take(k as int),
                ).push(p[k as int]));
            }
            k = k + 1;
        }
        proof {
            assert(p.take(p.len() as int) =~= p);
        }
        let ghost full = self.pieces();
        let len = self.pieces.len();
        let limit = if self.open_piece_empty() {
            CAPACITY + 1
        } else {
            CAPACITY
        };
        if len > limit {
            let tail = self.pieces.split_off(len - limit);
            self.pieces = tail;
        }
        proof {
            assert(self.pieces() =~= trim(full));
            lemma_lines_of_trim(full);
        }
    }

    /// The lines joined with newlines, for display.
    pub fn render_text(&self) -> (r: String)
        requires
            self.wf(),
        ensures
            r@ == join_lines(self@),
    {
        let n = self.len();
        if n == 0 {
            return String::new();
        }
        let mut r = self.pieces[0].clone();
        let mut k: usize = 1;
        proof {
            assert(self@.take(1) =~= seq![self@[0]]);
        }
        while k < n
            invariant
                1 <= k <= n,
                n == self@.len(),
                self@.len() <= self.pieces@.len(),
                forall|i: int| 0 <= i < n ==> #[trigger] self@[i] == self.pieces@[i]@,
                r@ == join_lines(self@.take(k as int)),
            decreases n - k,
        {
            proof {
                reveal_strlit("\n");
                assert(self@.take(k + 1 as int).drop_last() =~= self@.take(k as int));
            }
            r.append("\n");
            r.append(self.pieces[k].as_str());
            k = k + 1;
        }
        proof {
            assert(self@.take(self@.len() as int) =~= self@);
        }
        r
    }
}

proof fn lemma_split_pieces_nonempty(s: Seq<char>)
    ensures
        split_pieces(s).len() >= 1,
    decreases s.len(),
{
    if s.len() > 0 {
        lemma_split_pieces_nonempty(s.drop_last());
    }
}

/// All chunks written one after another.
pub open spec fn concat_chunks(chunks: Seq<Seq<char>>) -> Seq<char>
    decreases chunks.len(),
{
    if chunks.len() == 0 {
        Seq::empty()
    } else {
        concat_chunks(chunks.drop_last()) + chunks.last()
    }
}

/// The pieces of a new buffer after each chunk is appended in turn.
pub open spec fn after_appends(chunks: Seq<Seq<char>>) -> Seq<Seq<char>>
    decreases chunks.len(),
{
    if chunks.len() == 0 {
        split_pieces(Seq::empty())
    } else {
        trim(merge_lines(after_appends(chunks.drop_last()), split_pieces(chunks.last())))
    }
}

proof fn lemma_split_concat(a: Seq<char>, b: Seq<char>)
    ensures
        split_pieces(a + b) == merge_lines(split_pieces(a), split_pieces(b)),
    decreases b.len(),
{
    lemma_split_pieces_nonempty(a);
    if b.len() == 0 {
        assert(a + b =~= a);
        assert(merge_lines(split_pieces(a), split_pieces(b)) =~= split_pieces(a));
    } else {
        let b0 = b.drop_last();
        lemma_split_concat(a, b0);
        lemma_split_pieces_nonempty(b0);
        assert((a + b).drop_last() =~= a + b0);
        assert((a + b).last() == b.last());
        let x = split_pieces(a);
        let y = split_pieces(b0);
        if b.last() == '\n' {
            assert(merge_lines(x, y.push(Seq::empty())) =~= merge_lines(x, y).push(Seq::empty()));
        } else {
            let m = merge_lines(x, y);
            let c = b.last();
            assert(merge_lines(x, y.update(y.len() - 1, y.last().push(c))) =~= m.update(
                m.len() - 1,
                m.last().push(c),
            ));
        }
    }
}

proof fn lemma_lines_of_trim(z: Seq<Seq<char>>)
    requires
        z.len() >= 1,
    ensures
        trim(z).len() >= 1,
        lines_of(trim(z)) == keep_last(lines_of(z), CAPACITY as nat),
        lines_of(trim(z)).len() <= CAPACITY,
{
    let t = trim(z);
    assert(t.last() == z.last());
    assert(lines_of(t) =~= keep_last(lines_of(z), CAPACITY as nat));
}

proof fn lemma_trim_suffix(z: Seq<Seq<char>>, d: int)
    requires
        z.len() >= 1,
        0 <= d < z.len(),
        z.len() - d >= kept(z),
    ensures
        trim(z.subrange(d, z.len() as int)) == trim(z),
{
    let w = z.subrange(d, z.len() as int);
    assert(w.last() == z.last());
    assert(trim(w) =~= trim(z));
}

proof fn lemma_trim_merge(x: Seq<Seq<char>>, y: Seq<Seq<char>>)
    requires
        x.len() >= 1,
        y.len() >= 1,
    ensures
        trim(merge_lines(trim(x), y)) == trim(merge_lines(x, y)),
{
    let d = x.len() - kept(x);
    let z = merge_lines(x, y);
    assert(trim(x).last() == x.last());
    assert(merge_lines(trim(x), y) =~= z.subrange(d, z.len() as int));
    if y.len() == 1 {
        assert(z.last() == x.last() + y[0]);
    } else {
        assert(z.last() == y.last());
    }
    lemma_trim_suffix(z, d);
}

/// However many chunks are appended to a new buffer, it holds at most
/// `CAPACITY` lines, and they are the last lines of all the text appended,
/// in the order they were written.
pub proof fn lemma_appends_bounded(chunks: Seq<Seq<char>>)
    ensures
        after_appends(chunks).len() >= 1,
        lines_of(after_appends(chunks)).len() <= CAPACITY,
        after_appends(chunks) == trim(split_pieces(concat_chunks(chunks))),
        lines_of(after_appends(chunks)) == keep_last(
            text_lines(concat_chunks(chunks)),
            CAPACITY as nat,
        ),
    decreases chunks.len(),
{
    if chunks.len() == 0 {
        let z = split_pieces(Seq::<char>::empty());
        assert(z.len() == 1);
        assert(trim(z) =~= z);
    } else {
        let prev = chunks.drop_last();
        let c = chunks.last();
        lemma_appends_bounded(prev);
        lemma_split_pieces_nonempty(concat_chunks(prev));
        lemma_split_pieces_nonempty(c);
        lemma_split_concat(concat_chunks(prev), c);
        lemma_trim_merge(split_pieces(concat_chunks(prev)), split_pieces(c));
    }
    lemma_split_pieces_nonempty(concat_chunks(chunks));
    lemma_lines_of_trim(split_pieces(concat_chunks(chunks)));
}

} // verus!
