//! A whitespace-separated token reader over a text, read line by line.

use vstd::prelude::*;
use crate::text::{
    line_len, line_tokens, token_len, trim, trim_chars, words,
    lemma_line_len_bound, lemma_token_len_bound,
};

verus! {

broadcast use vstd::string::group_string_axioms;

proof fn lemma_token_scan(s: Seq<char>, m: int)
    requires
        0 <= m <= s.len(),
        forall|k: int| 0 <= k < m ==> s[k] != ' ',
        m == s.len() || s[m] == ' ',
    ensures
        token_len(s) == m,
    decreases m,
{
    if m > 0 {
        lemma_token_scan(s.drop_first(), m - 1);
    }
}

proof fn lemma_line_scan(s: Seq<char>, m: int)
    requires
        0 <= m <= s.len(),
        forall|k: int| 0 <= k < m ==> s[k] != '\n',
        m == s.len() || s[m] == '\n',
    ensures
        line_len(s) == if m == s.len() { m } else { m + 1 },
    decreases m,
{
    if m > 0 {
        lemma_line_scan(s.drop_first(), m - 1);
    }
}

/// Reads a text token by token. Lines are read one at a time, trimmed of
/// surrounding white space, and split at spaces.
pub struct Scanner {
    input: Vec<char>,
    pos: usize,
    id: usize,
    buf: Vec<char>,
    ended: bool,
}

impl Scanner {
    /// The scanner's internal consistency.
    pub closed spec fn wf(&self) -> bool {
        &&& self.pos <= self.input@.len()
        &&& self.buf@.len() > 0 ==> self.id < self.buf@.len() && self.buf@[self.id as int] != ' '
    }

    /// The text that no line read has reached yet.
    pub closed spec fn unread(&self) -> Seq<char> {
        self.input@.skip(self.pos as int)
    }

    /// What is left of the current line, after the tokens already handed out.
    pub closed spec fn pending(&self) -> Seq<char> {
        if self.buf@.len() == 0 {
            seq![]
        } else {
            self.buf@.skip(self.id as int)
        }
    }

    /// Whether a line was asked for after the text was exhausted.
    pub closed spec fn ended(&self) -> bool {
        self.ended
    }

    /// The tokens that the scanner has still to hand out, in order.
    pub closed spec fn tokens(&self) -> Seq<Seq<char>> {
        words(self.pending()) + line_tokens(self.unread())
    }

    /// A scanner over `resource`.
    pub fn new(resource: &str) -> (s: Scanner)
        ensures
            s.wf(),
            s.unread() == resource@,
            s.pending() == Seq::<char>::empty(),
            s.tokens() == line_tokens(resource@),
            !s.ended(),
    {
        let mut input: Vec<char> = Vec::new();
        for c in it: resource.chars()
            invariant
                input@ == it.seq().take(it.index() as int),
        {
            input.push(c);
        }
        assert(input@ =~= resource@);
        let s = Scanner { input, pos: 0, id: 0, buf: Vec::new(), ended: false };
        assert(s.input@.skip(0) =~= s.input@);
        assert(words(Seq::<char>::empty()) =~= Seq::<Seq<char>>::empty());
        assert(s.tokens() =~= line_tokens(resource@));
        s
    }

    /// Reads the next line of the text, its line break included; `None`
    /// once the text is exhausted.
    pub fn next_line(&mut self) -> (res: Option<Vec<char>>)
        requires
            old(self).wf(),
        ensures
            final(self).wf(),
            final(self).pending() == old(self).pending(),
            old(self).unread().len() == 0 ==> res is None && final(self).unread() == old(
                self,
            ).unread() && final(self).ended(),
            old(self).unread().len() > 0 ==> final(self).ended() == old(self).ended(),
            old(self).unread().len() > 0 ==> {
                let k = line_len(old(self).unread()) as int;
                &&& res is Some
                &&& res->0@ == old(self).unread().take(k)
                &&& final(self).unread() == old(self).unread().skip(k)
            },
    {
        let n = self.input.len();
        if self.pos >= n {
            self.ended = true;
            return None;
        }
        let start = self.pos;
        let ghost s = self.input@.skip(start as int);
        let mut line: Vec<char> = Vec::new();
        let mut end = start;
        while end < n
            invariant_except_break
                start < n,
                start <= end <= n,
                n == self.input@.len(),
                line@ == self.input@.subrange(start as int, end as int),
                forall|k: int| start <= k < end ==> self.input@[k] != '\n',
            ensures
                start < end <= n,
                n == self.input@.len(),
                line@ == self.input@.subrange(start as int, end as int),
                forall|k: int| start <= k < end - 1 ==> self.input@[k] != '\n',
                end == n || self.input@[end - 1] == '\n',
            decreases n - end,
        {
            let c = self.input[end];
            line.push(c);
            end = end + 1;
            assert(line@ =~= self.input@.subrange(start as int, end as int));
            if c == '\n' {
                break;
            }
        }
        proof {
            if self.input@[end - 1] == '\n' {
                lemma_line_scan(s, end - 1 - start);
            } else {
                lemma_line_scan(s, end - start);
            }
        }
        self.pos = end;
        assert(line@ =~= s.take(end - start));
        assert(self.input@.skip(end as int) =~= s.skip(end - start));
        Some(line)
    }

    /// Hands out the next token, reading further lines as long as the
    /// current one is used up; `None` once no token is left.
    pub fn next(&mut self) -> (res: Option<Vec<char>>)
        requires
            old(self).wf(),
        ensures
            final(self).wf(),
            res is None <==> old(self).tokens().len() == 0,
            final(self).ended() == (old(self).ended() || old(self).tokens().len() == 0),
            res is None ==> final(self).tokens() == old(self).tokens() && final(self).unread().len()
                == 0,
            res is Some ==> res->0@ == old(self).tokens()[0] && final(self).tokens() == old(
                self,
            ).tokens().drop_first(),
    {
        while self.buf.len() == 0
            invariant
                self.wf(),
                self.tokens() == old(self).tokens(),
                self.ended == old(self).ended,
            decreases self.input@.len() - self.pos,
        {
            let ghost before = *self;
            match self.next_line() {
                Some(r) => {
                    let ghost k = line_len(before.unread()) as int;
                    proof {
                        lemma_line_len_bound(before.unread());
                    }
                    let t = trim_chars(&r);
                    self.id = 0;
                    self.buf = t;
                    assert(words(before.pending()) =~= Seq::<Seq<char>>::empty());
                    assert(self.pending() =~= trim(before.unread().take(k))) by {
                        if self.buf@.len() > 0 {
                            assert(self.buf@.skip(0) =~= self.buf@);
                        }
                    }
                    assert(self.tokens() =~= before.tokens());
                },
                None => {
                    assert(words(before.pending()) =~= Seq::<Seq<char>>::empty());
                    return None;
                },
            }
        }
        let n = self.buf.len();
        let l = self.id;
        let ghost s = self.buf@.skip(l as int);
        let mut tok: Vec<char> = Vec::new();
        let mut r = l;
        while r < n && self.buf[r] != ' '
            invariant
                l <= r <= n,
                n == self.buf@.len(),
                tok@ == self.buf@.subrange(l as int, r as int),
                forall|k: int| l <= k < r ==> self.buf@[k] != ' ',
            decreases n - r,
        {
            tok.push(self.buf[r]);
            r = r + 1;
            assert(tok@ =~= self.buf@.subrange(l as int, r as int));
        }
        proof {
            lemma_token_scan(s, r - l);
            lemma_token_len_bound(s);
            assert(s.take(r - l) =~= tok@);
            assert(s.skip(r - l) =~= self.buf@.skip(r as int));
            assert(words(s) == seq![tok@] + words(self.buf@.skip(r as int)));
        }
        let mut r2 = r;
        while r2 < n && self.buf[r2] == ' '
            invariant
                r <= r2 <= n,
                n == self.buf@.len(),
                words(self.buf@.skip(r2 as int)) == words(self.buf@.skip(r as int)),
            decreases n - r2,
        {
            assert(self.buf@.skip(r2 as int).drop_first() =~= self.buf@.skip(r2 + 1));
            r2 = r2 + 1;
        }
        let ghost before = *self;
        if r2 == n {
            assert(self.buf@.skip(r2 as int) =~= Seq::<char>::empty());
            self.buf.clear();
        } else {
            self.id = r2;
        }
        assert(words(self.pending()) == words(before.buf@.skip(r as int)));
        assert(self.tokens() =~= old(self).tokens().drop_first());
        Some(tok)
    }

    /// Hands out the next token, of which there must be one.
    pub fn ne(&mut self) -> (res: Vec<char>)
        requires
            old(self).wf(),
            old(self).tokens().len() > 0,
        ensures
            final(self).wf(),
            res@ == old(self).tokens()[0],
            final(self).tokens() == old(self).tokens().drop_first(),
            final(self).ended() == old(self).ended(),
    {
        self.next().unwrap()
    }

    /// Whether the scanner has asked for a line after the text was
    /// exhausted.
    pub fn exhausted(&self) -> (r: bool)
        ensures
            r == self.ended(),
    {
        self.ended
    }
}

} // verus!
