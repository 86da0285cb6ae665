use vstd::prelude::*;
use vstd::string::StrSliceExecFns;

verus! {

/// `l` without one trailing carriage return.
pub open spec fn strip_cr(l: Seq<char>) -> Seq<char> {
    if l.len() > 0 && l.last() == '\r' { l.drop_last() } else { l }
}

/// The lines of `s` from position `i` on, `cur` being the part of the current
/// line read so far: lines end at `\n` (a `\r` before it is dropped), and a
/// last line without `\n` counts only when it is not empty.
pub open spec fn scan_lines(s: Seq<char>, i: int, cur: Seq<char>) -> Seq<Seq<char>>
    decreases s.len() - i,
{
    if i < 0 || i >= s.len() {
        if cur.len() == 0 { seq![] } else { seq![cur] }
    } else if s[i] == '\n' {
        seq![strip_cr(cur)] + scan_lines(s, i + 1, seq![])
    } else {
        scan_lines(s, i + 1, cur.push(s[i]))
    }
}

/// The lines of the text `s`.
pub open spec fn lines_of(s: Seq<char>) -> Seq<Seq<char>> {
    scan_lines(s, 0, seq![])
}

/// The Unicode white-space characters.
pub open spec fn is_space(c: char) -> bool {
    let u = c as u32;
    ||| 0x09 <= u <= 0x0d
    ||| u == 0x20
    ||| u == 0x85
    ||| u == 0xa0
    ||| u == 0x1680
    ||| 0x2000 <= u <= 0x200a
    ||| u == 0x2028
    ||| u == 0x2029
    ||| u == 0x202f
    ||| u == 0x205f
    ||| u == 0x3000
}

/// The white-space separated words of `s` from position `i` on, `cur` being
/// the part of the current word read so far.
pub open spec fn scan_words(s: Seq<char>, i: int, cur: Seq<char>) -> Seq<Seq<char>>
    decreases s.len() - i,
{
    if i < 0 || i >= s.len() {
        if cur.len() == 0 { seq![] } else { seq![cur] }
    } else if is_space(s[i]) {
        (if cur.len() == 0 { seq![] } else { seq![cur] }) + scan_words(s, i + 1, seq![])
    } else {
        scan_words(s, i + 1, cur.push(s[i]))
    }
}

/// The white-space separated words of `s`.
pub open spec fn words_of(s: Seq<char>) -> Seq<Seq<char>> {
    scan_words(s, 0, seq![])
}

pub open spec fn is_digit(c: char) -> bool {
    0x30 <= c as u32 <= 0x39
}

pub open spec fn all_digits(ds: Seq<char>) -> bool {
    forall|i: int| 0 <= i < ds.len() ==> is_digit(#[trigger] ds[i])
}

/// The value of the decimal digits `ds`.
pub open spec fn digits_value(ds: Seq<char>) -> int
    decreases ds.len(),
{
    if ds.len() == 0 { 0 } else { digits_value(ds.drop_last()) * 10 + (ds.last() as u32 - 0x30) }
}

/// The value of the numeral `w`: an optional sign (`-` only where `signed`)
/// followed by at least one decimal digit.
pub open spec fn numeral_value(w: Seq<char>, signed: bool) -> Option<int> {
    let neg = w.len() > 0 && w[0] == '-';
    let plus = w.len() > 0 && w[0] == '+';
    let ds = if neg || plus { w.drop_first() } else { w };
    if ds.len() == 0 || !all_digits(ds) || (neg && !signed) {
        None
    } else if neg {
        Some(-digits_value(ds))
    } else {
        Some(digits_value(ds))
    }
}

/// `w` read as an `i32`.
pub open spec fn i32_value(w: Seq<char>) -> Option<int> {
    match numeral_value(w, true) {
        Some(v) => if i32::MIN <= v <= i32::MAX { Some(v) } else { None },
        None => None,
    }
}

/// `w` read as a `usize`.
pub open spec fn usize_value(w: Seq<char>) -> Option<int> {
    match numeral_value(w, false) {
        Some(v) => if v <= usize::MAX { Some(v) } else { None },
        None => None,
    }
}

/// The clause that the words `ws` of a clause line give: the literals up to
/// the first `0`; `None` when a word before it is no `i32`.
pub open spec fn clause_of(ws: Seq<Seq<char>>) -> Option<Seq<i32>>
    decreases ws.len(),
{
    if ws.len() == 0 {
        Some(seq![])
    } else {
        match i32_value(ws[0]) {
            None => None,
            Some(v) => if v == 0 {
                Some(seq![])
            } else {
                match clause_of(ws.drop_first()) {
                    Some(c) => Some(seq![v as i32] + c),
                    None => None,
                }
            },
        }
    }
}

/// What the parser knows between lines: whether the problem line was seen,
/// and the two counts it gave.
pub struct ParseState {
    pub clause: bool,
    pub nbvars: usize,
    pub nbclauses: usize,
}

/// The outcome of one line: nothing, a clause, or an error message.
pub enum LineOutcome {
    Skip,
    Clause(Seq<i32>),
    Fail(Seq<char>),
}

/// The problem line `p cnf <nbvars> <nbclauses>`, read word by word; the
/// counts read before a malformed word stay read.
pub open spec fn problem_step(st: ParseState, ws: Seq<Seq<char>>) -> (ParseState, LineOutcome) {
    let st1 = ParseState { clause: true, ..st };
    if ws.len() < 1 || ws[0] != seq!['p'] {
        (st1, LineOutcome::Fail("Invalid problem format"@))
    } else if ws.len() < 2 || ws[1] != seq!['c', 'n', 'f'] {
        (st1, LineOutcome::Fail("Invalid problem format"@))
    } else if ws.len() < 3 || usize_value(ws[2]) is None {
        (st1, LineOutcome::Fail("Invalid problem format"@))
    } else {
        let st2 = ParseState { nbvars: usize_value(ws[2])->0 as usize, ..st1 };
        if ws.len() < 4 || usize_value(ws[3]) is None {
            (st2, LineOutcome::Fail("Invalid problem format"@))
        } else {
            (ParseState { nbclauses: usize_value(ws[3])->0 as usize, ..st2 }, LineOutcome::Skip)
        }
    }
}

/// One line of DIMACS text: empty lines and lines that start with another
/// character are skipped; `c` starts a comment, refused after the problem
/// line; `p` starts the problem line, allowed once; a digit `1`-`9`, `-` or a
/// space starts a clause, allowed after the problem line.
pub open spec fn line_step(st: ParseState, line: Seq<char>) -> (ParseState, LineOutcome) {
    if line.len() == 0 {
        (st, LineOutcome::Skip)
    } else if line[0] == 'c' {
        if st.clause {
            (st, LineOutcome::Fail("Unexpected comment after clause"@))
        } else {
            (st, LineOutcome::Skip)
        }
    } else if line[0] == 'p' {
        if !st.clause {
            problem_step(st, words_of(line))
        } else {
            (st, LineOutcome::Fail("Invalid problem usage"@))
        }
    } else if ('1' as u32 <= line[0] as u32 <= '9' as u32) || line[0] == '-' || line[0] == ' ' {
        if st.clause {
            match clause_of(words_of(line)) {
                Some(c) => (st, LineOutcome::Clause(c)),
                None => (st, LineOutcome::Fail("Invalid literal"@)),
            }
        } else {
            (st, LineOutcome::Fail("Invalid clause usage"@))
        }
    } else {
        (st, LineOutcome::Skip)
    }
}

/// The lines `ls` read from state `st`: the state reached and the clauses
/// read, or the first error.
pub open spec fn run_lines(st: ParseState, ls: Seq<Seq<char>>) -> (ParseState, Result<Seq<Seq<i32>>, Seq<char>>)
    decreases ls.len(),
{
    if ls.len() == 0 {
        (st, Ok(seq![]))
    } else {
        let (st1, r) = run_lines(st, ls.drop_last());
        match r {
            Err(e) => (st1, Err(e)),
            Ok(f) => {
                let (st2, o) = line_step(st1, ls.last());
                match o {
                    LineOutcome::Skip => (st2, Ok(f)),
                    LineOutcome::Clause(c) => (st2, Ok(f.push(c))),
                    LineOutcome::Fail(e) => (st2, Err(e)),
                }
            },
        }
    }
}

/// A reader of DIMACS CNF text, line by line.
pub struct Parser {
    input: Vec<Vec<char>>,
    pos: usize,
    line: Option<usize>,
    clause: bool,
    pub nbvars: usize,
    pub nbclauses: usize,
}

impl Parser {
    /// The lines of the text.
    pub closed spec fn lines(&self) -> Seq<Seq<char>> {
        words_view(self.input@)
    }

    /// The index of the next line to read.
    pub closed spec fn position(&self) -> nat {
        self.pos as nat
    }

    /// Whether the problem line was seen, and the counts read.
    pub closed spec fn state(&self) -> ParseState {
        ParseState { clause: self.clause, nbvars: self.nbvars, nbclauses: self.nbclauses }
    }

    /// A reader at the first line of `input`, before any problem line.
    pub fn new(input: &str) -> (r: Parser)
        ensures
            r.lines() == lines_of(input@),
            r.position() == 0,
            r.state() == (ParseState { clause: false, nbvars: 0, nbclauses: 0 }),
    {
        Parser { input: split_lines(input), pos: 0, line: None, clause: false, nbvars: 0, nbclauses: 0 }
    }

    /// Reads the remaining lines: the clauses, each without its closing
    /// `0`, or the message of the first malformed line.
    pub fn parse(&mut self) -> (r: Result<Vec<Vec<i32>>, &'static str>)
        requires
            old(self).position() <= old(self).lines().len(),
        ensures
            ({
                let (st, res) = run_lines(
                    old(self).state(),
                    old(self).lines().subrange(old(self).position() as int, old(self).lines().len() as int),
                );
                &&& final(self).state() == st
                &&& final(self).lines() == old(self).lines()
                &&& old(self).position() <= final(self).position() <= final(self).lines().len()
                &&& r is Ok ==> final(self).position() == final(self).lines().len()
                &&& match r {
                    Ok(f) => res == Ok::<Seq<Seq<i32>>, Seq<char>>(words_i32(f@)),
                    Err(e) => res == Err::<Seq<Seq<i32>>, Seq<char>>(e@),
                }
            }),
    {
        let ghost p0 = self.pos as int;
        let ghost ls = self.lines();
        let ghost st0 = self.state();
        let mut formula: Vec<Vec<i32>> = Vec::new();
        assert(ls.subrange(p0, p0) =~= Seq::<Seq<char>>::empty());
        assert(words_i32(formula@) =~= Seq::<Seq<i32>>::empty());
        loop
            invariant
                ls == self.lines(),
                ls.len() == self.input@.len(),
                0 <= p0 <= self.pos <= ls.len(),
                ls == old(self).lines(),
                self.input == old(self).input,
                st0 == old(self).state(),
                p0 == old(self).position(),
                run_lines(st0, ls.subrange(p0, self.pos as int)) == (self.state(), Ok::<Seq<Seq<i32>>, Seq<char>>(words_i32(formula@))),
            decreases ls.len() - self.pos,
        {
            self.next_line();
            match self.line {
                None => {
                    assert(ls.subrange(p0, ls.len() as int) == ls.subrange(p0, self.pos as int));
                    return Ok(formula);
                },
                Some(_) => {},
            }
            let ghost p = self.pos as int;
            assert(p0 < p <= ls.len());
            assert(ls.subrange(p0, p).drop_last() =~= ls.subrange(p0, p - 1));
            assert(ls.subrange(p0, p).last() == ls[p - 1]);
            assert(ls[p - 1] == self.input@[p - 1]@);
            match self.parse_line() {
                Ok(l) => {
                    match l {
                        Some(l) => {
                            let ghost f0 = formula@;
                            formula.push(l);
                            assert(words_i32(formula@) == words_i32(f0).push(l@));
                        },
                        None => {
                            continue;
                        },
                    }
                },
                Err(e) => {
                    proof {
                        let rest = ls.subrange(p0, ls.len() as int);
                        assert(rest.subrange(0, p - p0) =~= ls.subrange(p0, p));
                        lemma_run_lines_err(st0, rest, p - p0);
                    }
                    return Err(e);
                },
            }
        }
    }

    /// Reads the current line, if there is one.
    fn parse_line(&mut self) -> (r: Result<Option<Vec<i32>>, &'static str>)
        requires
            old(self).line matches Some(k) ==> k < old(self).input@.len(),
        ensures
            final(self).input == old(self).input,
            final(self).pos == old(self).pos,
            final(self).line == old(self).line,
            old(self).line is None ==> r == Ok::<Option<Vec<i32>>, &'static str>(None) && final(self).state() == old(self).state(),
            old(self).line matches Some(k) ==> outcome_is(line_step(old(self).state(), old(self).input@[k as int]@), final(self).state(), r),
    {
        match self.line {
            Some(k) => {
                return self.handle_line(k);
            },
            None => {
                return Ok(None);
            },
        }
    }

    /// Reads line `k`.
    fn handle_line(&mut self, k: usize) -> (r: Result<Option<Vec<i32>>, &'static str>)
        requires
            k < old(self).input@.len(),
        ensures
            final(self).input == old(self).input,
            final(self).pos == old(self).pos,
            final(self).line == old(self).line,
            outcome_is(line_step(old(self).state(), old(self).input@[k as int]@), final(self).state(), r),
    {
        let line = &self.input[k];
        if line.len() == 0 {
            return Ok(None);
        }
        let first = line[0];
        if first == 'c' {
            if self.clause {
                Err("Unexpected comment after clause")
            } else {
                Ok(None)
            }
        } else if first == 'p' {
            if !self.clause {
                self.clause = true;
                let parts = split_words(&self.input[k]);
                let ghost ws = words_view(parts@);
                if parts.len() < 1 || !(parts[0].len() == 1 && parts[0][0] == 'p') {
                    assert(ws.len() >= 1 ==> ws[0] != seq!['p'] || (parts@[0]@.len() == 1 && parts@[0]@[0] == 'p'));
                    proof {
                        if ws.len() >= 1 && ws[0] == seq!['p'] {
                            assert(parts@[0]@ == ws[0]);
                        }
                    }
                    return Err("Invalid problem format");
                }
                assert(ws[0] =~= seq!['p']);
                if parts.len() < 2 || !(parts[1].len() == 3 && parts[1][0] == 'c' && parts[1][1] == 'n' && parts[1][2] == 'f') {
                    proof {
                        if ws.len() >= 2 && ws[1] == seq!['c', 'n', 'f'] {
                            assert(parts@[1]@ == ws[1]);
                        }
                    }
                    return Err("Invalid problem format");
                }
                assert(ws[1] =~= seq!['c', 'n', 'f']);
                if parts.len() < 3 {
                    return Err("Invalid problem format");
                }
                assert(ws[2] == parts@[2]@);
                match parse_usize(&parts[2]) {
                    Some(n) => self.nbvars = n,
                    None => {
                        return Err("Invalid problem format");
                    },
                }
                if parts.len() < 4 {
                    return Err("Invalid problem format");
                }
                assert(ws[3] == parts@[3]@);
                match parse_usize(&parts[3]) {
                    Some(n) => self.nbclauses = n,
                    None => {
                        return Err("Invalid problem format");
                    },
                }
                Ok(None)
            } else {
                Err("Invalid problem usage")
            }
        } else if (0x31 <= first as u32 && first as u32 <= 0x39) || first == '-' || first == ' ' {
            if self.clause {
                match self.parse_clause(&self.input[k]) {
                    Ok(clause) => Ok(Some(clause)),
                    Err(e) => Err(e),
                }
            } else {
                Err("Invalid clause usage")
            }
        } else {
            Ok(None)
        }
    }

    /// The clause on `line`: its literals up to the first `0`.
    fn parse_clause(&self, line: &Vec<char>) -> (r: Result<Vec<i32>, &'static str>)
        ensures
            match r {
                Ok(c) => clause_of(words_of(line@)) == Some(c@),
                Err(e) => clause_of(words_of(line@)) is None && e@ == "Invalid literal"@,
            },
    {
        let words = split_words(line);
        let ghost ws = words_of(line@);
        let mut clause: Vec<i32> = Vec::new();
        let mut i: usize = 0;
        proof {
            assert(ws.subrange(0, ws.len() as int) == ws);
            match clause_of(ws) {
                Some(c) => {
                    assert(clause@ + c =~= c);
                },
                None => {},
            }
        }
        while i < words.len()
            invariant
                ws == words_view(words@),
                ws == words_of(line@),
                i <= words@.len(),
                match clause_of(ws.subrange(i as int, ws.len() as int)) {
                    Some(c) => clause_of(ws) == Some(clause@ + c),
                    None => clause_of(ws) is None,
                },
            decreases words@.len() - i,
        {
            let ghost sub = ws.subrange(i as int, ws.len() as int);
            assert(sub[0] == words@[i as int]@);
            assert(sub.drop_first() == ws.subrange(i + 1, ws.len() as int));
            let literal = match parse_i32(&words[i]) {
                Some(l) => l,
                None => {
                    assert(clause_of(sub) is None);
                    assert(clause_of(ws) is None);
                    assert(clause_of(words_of(line@)) is None);
                    let e = "Invalid literal";
                    assert(e@ == "Invalid literal"@);
                    return Err(e);
                },
            };
            if literal == 0 {
                assert(clause_of(sub) == Some(Seq::<i32>::empty()));
                assert(clause@ + Seq::<i32>::empty() =~= clause@);
                return Ok(clause);
            }
            let ghost c0 = clause@;
            clause.push(literal);
            proof {
                match clause_of(ws.subrange(i + 1, ws.len() as int)) {
                    Some(c) => {
                        assert(c0 + (seq![literal] + c) =~= clause@ + c);
                    },
                    None => {},
                }
            }
            i = i + 1;
        }
        proof {
            if i == words.len() {
                assert(ws.subrange(i as int, ws.len() as int) =~= Seq::<Seq<char>>::empty());
                assert(clause@ + Seq::<i32>::empty() =~= clause@);
            }
        }
        Ok(clause)
    }

    /// Moves to the next line, or to none past the last.
    fn next_line(&mut self)
        ensures
            final(self).input == old(self).input,
            final(self).clause == old(self).clause,
            final(self).nbvars == old(self).nbvars,
            final(self).nbclauses == old(self).nbclauses,
            old(self).pos >= old(self).input@.len() ==> final(self).line is None && final(self).pos == old(self).pos,
            old(self).pos < old(self).input@.len() ==> final(self).line == Some(old(self).pos)
                && final(self).pos == old(self).pos + 1,
    {
        if self.pos >= self.input.len() {
            self.line = None;
        } else {
            self.line = Some(self.pos);
            self.pos = self.pos + 1;
        }
    }
}

/// `r` and the state `st` are what `expected` says one line gives.
pub open spec fn outcome_is(expected: (ParseState, LineOutcome), st: ParseState, r: Result<Option<Vec<i32>>, &'static str>) -> bool {
    &&& st == expected.0
    &&& match r {
        Ok(None) => expected.1 is Skip,
        Ok(Some(c)) => expected.1 == LineOutcome::Clause(c@),
        Err(e) => expected.1 == LineOutcome::Fail(e@),
    }
}

/// Once a prefix of the lines fails, the whole fails the same way.
proof fn lemma_run_lines_err(st: ParseState, ls: Seq<Seq<char>>, k: int)
    requires
        0 <= k <= ls.len(),
        run_lines(st, ls.subrange(0, k)).1 is Err,
    ensures
        run_lines(st, ls) == run_lines(st, ls.subrange(0, k)),
    decreases ls.len(),
{
    if k == ls.len() {
        assert(ls.subrange(0, k) == ls);
    } else {
        let b = ls.drop_last();
        assert(b.subrange(0, k) == ls.subrange(0, k));
        lemma_run_lines_err(st, b, k);
    }
}

/// The decimal digit for `d < 10`.
pub open spec fn digit_char(d: nat) -> char {
    if d == 0 { '0' } else if d == 1 { '1' } else if d == 2 { '2' } else if d == 3 { '3' }
    else if d == 4 { '4' } else if d == 5 { '5' } else if d == 6 { '6' } else if d == 7 { '7' }
    else if d == 8 { '8' } else { '9' }
}

/// The decimal digits of `n`.
pub open spec fn digits_of(n: nat) -> Seq<char>
    decreases n,
{
    if n < 10 {
        seq![digit_char(n)]
    } else {
        digits_of(n / 10).push(digit_char(n % 10))
    }
}

proof fn lemma_digit_char(d: nat)
    requires
        d < 10,
    ensures
        digit_char(d) as u32 == d + 0x30,
{
}

/// The decimal form of the literal `l`.
pub open spec fn literal_text(l: i32) -> Seq<char> {
    if l < 0 { seq!['-'] + digits_of((-l) as nat) } else { digits_of(l as nat) }
}

/// The words of the textual form of clause `c`: its literals, then `0`.
pub open spec fn clause_words(c: Seq<i32>) -> Seq<Seq<char>> {
    c.map_values(|l: i32| literal_text(l)) + seq![seq!['0']]
}

/// The words `ws`, each followed by a space.
pub open spec fn join_words(ws: Seq<Seq<char>>) -> Seq<char>
    decreases ws.len(),
{
    if ws.len() == 0 { seq![] } else { ws[0] + seq![' '] + join_words(ws.drop_first()) }
}

/// The textual form of clause `c` as one DIMACS line.
pub open spec fn clause_line(c: Seq<i32>) -> Seq<char> {
    join_words(clause_words(c))
}

proof fn lemma_digits_of(n: nat)
    ensures
        digits_of(n).len() > 0,
        all_digits(digits_of(n)),
        digits_value(digits_of(n)) == n,
    decreases n,
{
    lemma_digit_char(n % 10);
    if n < 10 {
        assert(digits_of(n).drop_last() =~= Seq::<char>::empty());
        assert(digits_value(Seq::<char>::empty()) == 0);
    } else {
        lemma_digits_of(n / 10);
        let d = digits_of(n);
        assert(d.drop_last() == digits_of(n / 10));
        assert forall|i: int| 0 <= i < d.len() implies is_digit(#[trigger] d[i]) by {
            if i < d.len() - 1 {
                assert(d[i] == digits_of(n / 10)[i]);
            }
        }
    }
}

proof fn lemma_literal_text(l: i32)
    ensures
        i32_value(literal_text(l)) == Some(l as int),
        literal_text(l).len() > 0,
        forall|i: int| 0 <= i < literal_text(l).len() ==> !is_space(#[trigger] literal_text(l)[i]),
{
    let w = literal_text(l);
    if l < 0 {
        let n = (-l) as nat;
        lemma_digits_of(n);
        assert(w.drop_first() == digits_of(n));
        assert forall|i: int| 0 <= i < w.len() implies !is_space(#[trigger] w[i]) by {
            if i > 0 {
                assert(w[i] == digits_of(n)[i - 1]);
                assert(is_digit(digits_of(n)[i - 1]));
            }
        }
    } else {
        lemma_digits_of(l as nat);
        assert(is_digit(w[0]));
        assert forall|i: int| 0 <= i < w.len() implies !is_space(#[trigger] w[i]) by {
            assert(is_digit(w[i]));
        }
    }
}

proof fn lemma_clause_of_words(c: Seq<i32>)
    requires
        forall|i: int| 0 <= i < c.len() ==> #[trigger] c[i] != 0,
    ensures
        clause_of(clause_words(c)) == Some(c),
    decreases c.len(),
{
    let ws = clause_words(c);
    if c.len() == 0 {
        assert(ws == seq![seq!['0']]);
        assert(digits_value(seq!['0']) == 0) by {
            assert(seq!['0'].drop_last() =~= Seq::<char>::empty());
            assert('0' as u32 == 0x30);
            assert(digits_value(Seq::<char>::empty()) == 0);
        }
        assert(all_digits(seq!['0']));
        assert(clause_of(ws.drop_first()) == Some(Seq::<i32>::empty())) by {
            assert(ws.drop_first() =~= Seq::<Seq<char>>::empty());
        }
    } else {
        lemma_literal_text(c[0]);
        assert(ws[0] == literal_text(c[0]));
        assert(ws.drop_first() =~= clause_words(c.drop_first()));
        assert forall|i: int| 0 <= i < c.drop_first().len() implies #[trigger] c.drop_first()[i] != 0 by {
            assert(c.drop_first()[i] == c[i + 1]);
        }
        lemma_clause_of_words(c.drop_first());
        assert(seq![c[0]] + c.drop_first() =~= c);
    }
}

/// Where a word without spaces starts, the scan reads all of it.
proof fn lemma_scan_word(s: Seq<char>, i: int, cur: Seq<char>, w: Seq<char>)
    requires
        0 <= i,
        i + w.len() < s.len(),
        s.subrange(i, i + w.len()) == w,
        forall|k: int| 0 <= k < w.len() ==> !is_space(#[trigger] w[k]),
        s[i + w.len()] == ' ',
    ensures
        scan_words(s, i, cur) == (if (cur + w).len() == 0 { seq![] } else { seq![cur + w] }) + scan_words(s, i + w.len() + 1, seq![]),
    decreases w.len(),
{
    if w.len() == 0 {
        assert(cur + w =~= cur);
    } else {
        assert(s[i] == w[0]);
        let w1 = w.drop_first();
        assert(s.subrange(i + 1, i + 1 + w1.len()) =~= w1);
        assert forall|k: int| 0 <= k < w1.len() implies !is_space(#[trigger] w1[k]) by {
            assert(w1[k] == w[k + 1]);
        }
        lemma_scan_word(s, i + 1, cur.push(s[i]), w1);
        assert(cur.push(s[i]) + w1 =~= cur + w);
    }
}

/// The scan from position `i` depends only on what follows it.
proof fn lemma_scan_suffix(s: Seq<char>, i: int, cur: Seq<char>)
    requires
        0 <= i <= s.len(),
    ensures
        scan_words(s, i, cur) == scan_words(s.subrange(i, s.len() as int), 0, cur),
    decreases s.len() - i,
{
    let t = s.subrange(i, s.len() as int);
    if i < s.len() {
        lemma_scan_suffix(s, i + 1, if is_space(s[i]) { seq![] } else { cur.push(s[i]) });
        lemma_scan_suffix(t, 1, if is_space(s[i]) { seq![] } else { cur.push(s[i]) });
        assert(t.subrange(1, t.len() as int) =~= s.subrange(i + 1, s.len() as int));
        assert(t[0] == s[i]);
    }
}

proof fn lemma_join_words(ws: Seq<Seq<char>>)
    requires
        forall|k: int| 0 <= k < ws.len() ==> (#[trigger] ws[k]).len() > 0,
        forall|k: int, j: int| 0 <= k < ws.len() && 0 <= j < ws[k].len() ==> !is_space(#[trigger] ws[k][j]),
    ensures
        words_of(join_words(ws)) == ws,
    decreases ws.len(),
{
    let s = join_words(ws);
    if ws.len() > 0 {
        let w = ws[0];
        let rest = ws.drop_first();
        assert forall|k: int| 0 <= k < rest.len() implies (#[trigger] rest[k]).len() > 0 by {
            assert(rest[k] == ws[k + 1]);
        }
        assert forall|k: int, j: int| 0 <= k < rest.len() && 0 <= j < rest[k].len() implies !is_space(#[trigger] rest[k][j]) by {
            assert(rest[k] == ws[k + 1]);
        }
        lemma_join_words(rest);
        assert(s.subrange(0, w.len() as int) =~= w);
        assert(s[w.len() as int] == ' ');
        assert forall|k: int| 0 <= k < w.len() implies !is_space(#[trigger] w[k]) by {}
        lemma_scan_word(s, 0, seq![], w);
        assert(Seq::<char>::empty() + w =~= w);
        lemma_scan_suffix(s, w.len() + 1 as int, seq![]);
        assert(s.subrange(w.len() + 1 as int, s.len() as int) =~= join_words(rest));
        assert(seq![w] + rest =~= ws);
    } else {
        assert(s =~= Seq::<char>::empty());
    }
}

/// Parsing the textual form of a clause gives the clause back: the line
/// that lists its (nonzero) literals in decimal, then `0`, each followed by
/// a space, reads as the same clause.
pub proof fn lemma_clause_line_round_trip(c: Seq<i32>)
    requires
        forall|i: int| 0 <= i < c.len() ==> #[trigger] c[i] != 0,
    ensures
        clause_of(words_of(clause_line(c))) == Some(c),
{
    let ws = clause_words(c);
    assert forall|k: int| 0 <= k < ws.len() implies (#[trigger] ws[k]).len() > 0 && forall|j: int|
        0 <= j < ws[k].len() ==> !is_space(#[trigger] ws[k][j]) by {
        if k < c.len() {
            lemma_literal_text(c[k]);
            assert(ws[k] == literal_text(c[k]));
        } else {
            assert(ws[k] == seq!['0']);
        }
    }
    lemma_join_words(ws);
    lemma_clause_of_words(c);
}

/// The clauses of a sequence of literal vectors.
pub open spec fn words_i32(v: Seq<Vec<i32>>) -> Seq<Seq<i32>> {
    v.map_values(|c: Vec<i32>| c@)
}

/// The words of a sequence of character vectors.
pub open spec fn words_view(v: Seq<Vec<char>>) -> Seq<Seq<char>> {
    v.map_values(|w: Vec<char>| w@)
}

proof fn lemma_digits_nonneg(ds: Seq<char>)
    requires
        all_digits(ds),
    ensures
        digits_value(ds) >= 0,
    decreases ds.len(),
{
    if ds.len() > 0 {
        lemma_digits_nonneg(ds.drop_last());
    }
}

/// A numeral is worth at least as much as any prefix of it.
proof fn lemma_digits_prefix(ds: Seq<char>, j: int)
    requires
        all_digits(ds),
        0 <= j <= ds.len(),
    ensures
        digits_value(ds.subrange(0, j)) <= digits_value(ds),
    decreases ds.len(),
{
    if j < ds.len() {
        let b = ds.drop_last();
        lemma_digits_prefix(b, j);
        lemma_digits_nonneg(b);
        assert(b.subrange(0, j) == ds.subrange(0, j));
    } else {
        assert(ds.subrange(0, j) == ds);
    }
}

/// `c` is a Unicode white-space character.
fn is_space_char(c: char) -> (r: bool)
    ensures
        r == is_space(c),
{
    let u = c as u32;
    (0x09 <= u && u <= 0x0d) || u == 0x20 || u == 0x85 || u == 0xa0 || u == 0x1680 || (0x2000 <= u
        && u <= 0x200a) || u == 0x2028 || u == 0x2029 || u == 0x202f || u == 0x205f || u == 0x3000
}

/// The lines of `input`.
fn split_lines(input: &str) -> (r: Vec<Vec<char>>)
    ensures
        words_view(r@) == lines_of(input@),
{
    let len = input.unicode_len();
    let mut r: Vec<Vec<char>> = Vec::new();
    let mut cur: Vec<char> = Vec::new();
    let mut i: usize = 0;
    while i < len
        invariant
            len == input@.len(),
            i <= len,
            words_view(r@) + scan_lines(input@, i as int, cur@) == lines_of(input@),
        decreases len - i,
    {
        let c = input.get_char(i);
        if c == '\n' {
            if cur.len() > 0 && cur[cur.len() - 1] == '\r' {
                cur.pop();
            }
            let ghost r0 = r@;
            r.push(cur);
            cur = Vec::new();
            assert(words_view(r@) == words_view(r0).push(r@.last()@));
        } else {
            cur.push(c);
        }
        i = i + 1;
    }
    if cur.len() > 0 {
        r.push(cur);
    }
    r
}

/// The white-space separated words of `line`.
fn split_words(line: &Vec<char>) -> (r: Vec<Vec<char>>)
    ensures
        words_view(r@) == words_of(line@),
{
    let mut r: Vec<Vec<char>> = Vec::new();
    let mut cur: Vec<char> = Vec::new();
    let mut i: usize = 0;
    while i < line.len()
        invariant
            i <= line@.len(),
            words_view(r@) + scan_words(line@, i as int, cur@) == words_of(line@),
        decreases line@.len() - i,
    {
        let c = line[i];
        if is_space_char(c) {
            assert(seq![] + scan_words(line@, i + 1, seq![]) =~= scan_words(line@, i + 1, seq![]));
            if cur.len() == 0 {
                assert(cur@ =~= seq![]);
                assert(scan_words(line@, i as int, cur@) == scan_words(line@, i + 1, seq![]));
            }
            if cur.len() > 0 {
                let ghost r0 = r@;
                let ghost c0 = cur@;
                let ghost rest = scan_words(line@, i + 1, seq![]);
                assert(scan_words(line@, i as int, c0) == seq![c0] + rest);
                r.push(cur);
                cur = Vec::new();
                assert(words_view(r@) == words_view(r0).push(c0));
                assert(words_view(r0).push(c0) + rest =~= words_view(r0) + (seq![c0] + rest));
            }
        } else {
            cur.push(c);
        }
        i = i + 1;
    }
    if cur.len() > 0 {
        r.push(cur);
    }
    r
}

/// The value of the digits of `w` from `start` on, where there is at least
/// one, all are digits, and the value is at most `limit`.
fn parse_magnitude(w: &Vec<char>, start: usize, limit: u64) -> (r: Option<u64>)
    requires
        start <= w@.len(),
        limit >= 9,
    ensures
        ({
            let ds = w@.subrange(start as int, w@.len() as int);
            match r {
                Some(v) => ds.len() > 0 && all_digits(ds) && v == digits_value(ds) && v <= limit,
                None => ds.len() == 0 || !all_digits(ds) || digits_value(ds) > limit,
            }
        }),
{
    let ghost ds = w@.subrange(start as int, w@.len() as int);
    if start == w.len() {
        return None;
    }
    let mut acc: u64 = 0;
    let mut i: usize = start;
    while i < w.len()
        invariant
            start <= i <= w@.len(),
            ds == w@.subrange(start as int, w@.len() as int),
            limit >= 9,
            all_digits(ds.subrange(0, i - start)),
            acc == digits_value(ds.subrange(0, i - start)),
            acc <= limit,
        decreases w@.len() - i,
    {
        let c = w[i];
        let u = c as u32;
        if u < 0x30 || u > 0x39 {
            assert(ds[i - start] == c);
            return None;
        }
        let d = (u - 0x30) as u64;
        assert(ds.subrange(0, i + 1 - start).drop_last() == ds.subrange(0, i - start));
        assert(ds.subrange(0, i + 1 - start).last() == c);
        if acc > (limit - d) / 10 {
            proof {
                assert(acc * 10 + d > limit) by (nonlinear_arith)
                    requires acc > (limit - d) / 10, d <= 9, limit >= 9;
                if all_digits(ds) {
                    lemma_digits_prefix(ds, i + 1 - start);
                }
            }
            return None;
        }
        assert(acc * 10 + d <= limit) by (nonlinear_arith)
            requires acc <= (limit - d) / 10, d <= 9, acc <= limit, limit >= 9;
        acc = acc * 10 + d;
        i = i + 1;
    }
    assert(ds.subrange(0, ds.len() as int) == ds);
    Some(acc)
}

/// `w` read as an `i32`.
pub fn parse_i32(w: &Vec<char>) -> (r: Option<i32>)
    ensures
        match r {
            Some(v) => i32_value(w@) == Some(v as int),
            None => i32_value(w@) is None,
        },
{
    if w.len() == 0 {
        return None;
    }
    let neg = w[0] == '-';
    let plus = w[0] == '+';
    let start: usize = if neg || plus { 1 } else { 0 };
    assert(w@.drop_first() == w@.subrange(1, w@.len() as int));
    assert(w@ == w@.subrange(0, w@.len() as int));
    let limit: u64 = if neg { 2147483648 } else { 2147483647 };
    match parse_magnitude(w, start, limit) {
        None => None,
        Some(m) => {
            if neg {
                Some((0 - m as i64) as i32)
            } else {
                Some(m as i32)
            }
        },
    }
}

/// `w` read as a `usize`.
pub fn parse_usize(w: &Vec<char>) -> (r: Option<usize>)
    ensures
        match r {
            Some(v) => usize_value(w@) == Some(v as int),
            None => usize_value(w@) is None,
        },
{
    if w.len() == 0 {
        return None;
    }
    if w[0] == '-' {
        return None;
    }
    let start: usize = if w[0] == '+' { 1 } else { 0 };
    assert(w@.drop_first() == w@.subrange(1, w@.len() as int));
    assert(w@ == w@.subrange(0, w@.len() as int));
    match parse_magnitude(w, start, usize::MAX as u64) {
        None => None,
        Some(m) => Some(m as usize),
    }
}

} // verus!
