//! Front end: lexing, peephole optimization, bracket validation and
//! jump resolution for the instruction stream.

use vstd::prelude::*;

pub use crate::STORAGE_SIZE;

verus! {

use crate::error::Error;

/// One instruction of the optimized stream.
#[derive(Debug, Copy, Clone, PartialEq, Eq, Structural)]
pub enum Token {
    /// Add the value to the current cell, modulo 256.
    /// Subtraction by `k` is represented as `Add(256 - k)`.
    Add(u8),
    /// Move the data pointer forward by the value, modulo the tape size.
    /// Moving backward by `k` is represented as `Move(STORAGE_SIZE - k)`.
    Move(usize),
    /// Read one byte from the input port into the current cell.
    Input,
    /// Write the current cell to the output port.
    Output,
    /// Start of a loop; the payload is the distance to the matching close bracket.
    OpenBr(usize),
    /// End of a loop; the payload is the distance to the matching open bracket.
    CloseBr(usize),
    /// Set the current cell to zero.
    ClearCell,
    /// Add the current cell to the cell at the given distance, then zero it.
    AddTo(usize),
    /// Add the current cell to the cells at the two given distances, then zero it.
    AddToCopy(usize, usize),
}

/// The processed code: a linear sequence of instructions.
pub type TokenStream = Vec<Token>;

/// A token together with the 1-based line and column of the source
/// character it came from; carried through the front-end passes for
/// diagnostics and discarded at the end.
pub type LocToken = (Token, usize, usize);

/// True of the two token kinds that the adjacency merge folds.
pub open spec fn is_add(t: Token) -> bool {
    match t {
        Token::Add(_) => true,
        _ => false,
    }
}

/// True of the nonzero additions that a clear loop's body may hold.
pub open spec fn is_clearing_add(t: Token) -> bool {
    match t {
        Token::Add(n) => n != 0,
        _ => false,
    }
}

/// True of move tokens.
pub open spec fn is_move(t: Token) -> bool {
    match t {
        Token::Move(_) => true,
        _ => false,
    }
}

/// Every move payload is below the tape size, so that merging two of
/// them cannot overflow a machine word.
pub open spec fn moves_bounded(s: Seq<LocToken>) -> bool {
    forall|i: int|
        0 <= i < s.len() ==> match (#[trigger] s[i]).0 {
            Token::Move(m) => m < STORAGE_SIZE,
            _ => true,
        }
}

/// No two adjacent tokens are both additions or both moves: nothing is
/// left for the adjacency merge to fold.
pub open spec fn merge_normal(s: Seq<LocToken>) -> bool {
    forall|i: int|
        0 <= i && i + 1 < s.len() ==> !(is_add(#[trigger] s[i].0) && is_add(s[i + 1].0)) && !(is_move(
            s[i].0,
        ) && is_move(s[i + 1].0))
}

/// One step of the adjacency merge: fold `t` into the accumulator,
/// summing adjacent additions modulo 256 and adjacent moves modulo the
/// tape size, and dropping a merged token whose payload becomes zero.
/// The merged token keeps the location of the first participant.
pub open spec fn merge_push(acc: Seq<LocToken>, t: LocToken) -> Seq<LocToken> {
    if acc.len() == 0 {
        acc.push(t)
    } else {
        let l = acc.last();
        match (l.0, t.0) {
            (Token::Add(n), Token::Add(m)) => {
                let s = ((n as int + m as int) % 256) as u8;
                if s == 0 {
                    acc.drop_last()
                } else {
                    acc.drop_last().push((Token::Add(s), l.1, l.2))
                }
            },
            (Token::Move(n), Token::Move(m)) => {
                let s = ((n as int + m as int) % (STORAGE_SIZE as int)) as usize;
                if s == 0 {
                    acc.drop_last()
                } else {
                    acc.drop_last().push((Token::Move(s), l.1, l.2))
                }
            },
            _ => acc.push(t),
        }
    }
}

/// The adjacency merge of a whole stream, applied left to right.
pub open spec fn merged(s: Seq<LocToken>) -> Seq<LocToken>
    decreases s.len(),
{
    if s.len() == 0 {
        Seq::empty()
    } else {
        merge_push(merged(s.drop_last()), s.last())
    }
}

/// After the merge nothing mergeable is left adjacent.
proof fn lemma_merged_is_normal(s: Seq<LocToken>)
    ensures
        merge_normal(merged(s)),
    decreases s.len(),
{
    if s.len() > 0 {
        lemma_merged_is_normal(s.drop_last());
        let acc = merged(s.drop_last());
        let r = merge_push(acc, s.last());
        assert forall|i: int| 0 <= i && i + 1 < r.len() implies !(is_add(#[trigger] r[i].0) && is_add(
            r[i + 1].0,
        )) && !(is_move(r[i].0) && is_move(r[i + 1].0)) by {
            if acc.len() >= 2 {
                assert(acc.drop_last()[acc.len() - 2] == acc[acc.len() - 2]);
            }
            if i + 1 < acc.len() {
                assert(!(is_add(acc[i].0) && is_add(acc[i + 1].0)) && !(is_move(acc[i].0)
                    && is_move(acc[i + 1].0)));
            }
        }
    }
}

/// A stream with nothing mergeable left in it is a fixed point of the merge.
proof fn lemma_merge_of_normal(s: Seq<LocToken>)
    requires
        merge_normal(s),
    ensures
        merged(s) == s,
    decreases s.len(),
{
    if s.len() == 0 {
        assert(merged(s) =~= s);
    } else {
        assert forall|i: int| 0 <= i && i + 1 < s.drop_last().len() implies !(is_add(
            #[trigger] s.drop_last()[i].0,
        ) && is_add(s.drop_last()[i + 1].0)) && !(is_move(s.drop_last()[i].0) && is_move(
            s.drop_last()[i + 1].0,
        )) by {
            assert(s.drop_last()[i] == s[i]);
            assert(s.drop_last()[i + 1] == s[i + 1]);
        }
        lemma_merge_of_normal(s.drop_last());
        if s.len() >= 2 {
            assert(s.drop_last().last() == s[s.len() - 2]);
            assert(!(is_add(s[s.len() - 2].0) && is_add(s[s.len() - 1].0)) && !(is_move(
                s[s.len() - 2].0,
            ) && is_move(s[s.len() - 1].0)));
        }
        assert(merged(s) =~= s);
    }
}

/// Merge idempotence: applying the adjacency merge twice to any stream
/// produces the same stream as applying it once.
pub proof fn lemma_merge_idempotent(s: Seq<LocToken>)
    ensures
        merged(merged(s)) == merged(s),
{
    lemma_merged_is_normal(s);
    lemma_merge_of_normal(merged(s));
}

/// Merge adjacent addition and move tokens.
/// Adjacent additions are merged by adding the values modulo 256;
/// adjacent moves by adding the values modulo the tape size. A token
/// whose merged value becomes a no-op is removed.
pub fn merge_adjacent(tokens: Vec<LocToken>) -> (r: Vec<LocToken>)
    requires
        moves_bounded(tokens@),
    ensures
        r@ == merged(tokens@),
{
    let mut optimized: Vec<LocToken> = Vec::new();
    let n = tokens.len();
    let mut idx: usize = 0;
    while idx < n
        invariant
            idx <= n,
            n == tokens@.len(),
            moves_bounded(tokens@),
            optimized@ == merged(tokens@.subrange(0, idx as int)),
            moves_bounded(optimized@),
        decreases n - idx,
    {
        let t = tokens[idx];
        proof {
            assert(tokens@.subrange(0, idx as int + 1).drop_last() =~= tokens@.subrange(
                0,
                idx as int,
            ));
            assert(tokens@.subrange(0, idx as int + 1).last() == t);
        }
        let olen = optimized.len();
        if olen == 0 {
            optimized.push(t);
        } else {
            let last = optimized[olen - 1];
            match (last.0, t.0) {
                (Token::Add(nv), Token::Add(mv)) => {
                    let s = nv.wrapping_add(mv);
                    if s == 0 {
                        optimized.pop();
                    } else {
                        optimized.set(olen - 1, (Token::Add(s), last.1, last.2));
                    }
                },
                (Token::Move(nv), Token::Move(mv)) => {
                    let s = (nv + mv) % STORAGE_SIZE;
                    if s == 0 {
                        optimized.pop();
                    } else {
                        optimized.set(olen - 1, (Token::Move(s), last.1, last.2));
                    }
                },
                _ => {
                    optimized.push(t);
                },
            }
        }
        proof {
            assert(optimized@ =~= merge_push(
                merged(tokens@.subrange(0, idx as int)),
                tokens@.subrange(0, idx as int + 1).last(),
            ));
        }
        idx = idx + 1;
    }
    proof {
        assert(tokens@.subrange(0, n as int) =~= tokens@);
    }
    optimized
}

/// The bare tokens of a located stream, with the locations dropped.
pub open spec fn toks(s: Seq<LocToken>) -> Seq<Token> {
    s.map_values(|lt: LocToken| lt.0)
}

/// The bracket-nesting contribution of one token.
pub open spec fn tok_delta(t: Token) -> int {
    match t {
        Token::OpenBr(_) => 1,
        Token::CloseBr(_) => -1,
        _ => 0,
    }
}

/// Number of open brackets minus number of close brackets in the stream.
pub open spec fn net(s: Seq<Token>) -> int
    decreases s.len(),
{
    if s.len() == 0 {
        0
    } else {
        net(s.drop_last()) + tok_delta(s.last())
    }
}

/// In every prefix the open brackets are at least as many as the close
/// brackets.
pub open spec fn prefix_ok(s: Seq<Token>) -> bool {
    forall|i: int| 0 <= i <= s.len() ==> net(#[trigger] s.subrange(0, i)) >= 0
}

/// The brackets of the stream are properly matched: no prefix closes
/// more than it has opened, and everything opened is closed.
pub open spec fn balanced(s: Seq<Token>) -> bool {
    prefix_ok(s) && net(s) == 0
}

/// `net` of a prefix grows by the delta of the next token.
pub proof fn lemma_net_step(s: Seq<Token>, i: int)
    requires
        0 <= i < s.len(),
    ensures
        net(s.subrange(0, i + 1)) == net(s.subrange(0, i)) + tok_delta(s[i]),
{
    assert(s.subrange(0, i + 1).drop_last() =~= s.subrange(0, i));
    assert(s.subrange(0, i + 1).last() == s[i]);
}

/// The bracket scan, from position `i` with the locations of the
/// currently open brackets on `stack`: on a close bracket with an empty
/// stack it reports that close as unmatched, and at the end it reports
/// the most recent open bracket still unclosed, if any.
pub open spec fn check_scan(s: Seq<LocToken>, i: int, stack: Seq<(usize, usize)>) -> Result<
    (),
    Error,
>
    decreases s.len() - i,
{
    if i < 0 || i >= s.len() {
        if stack.len() == 0 {
            Ok(())
        } else {
            Err(Error::UnmatchedOpenBr(stack.last().0, stack.last().1))
        }
    } else {
        match s[i].0 {
            Token::OpenBr(_) => check_scan(s, i + 1, stack.push((s[i].1, s[i].2))),
            Token::CloseBr(_) => if stack.len() == 0 {
                Err(Error::UnmatchedCloseBr(s[i].1, s[i].2))
            } else {
                check_scan(s, i + 1, stack.drop_last())
            },
            _ => check_scan(s, i + 1, stack),
        }
    }
}

/// What the bracket validator reports for a stream.
pub open spec fn check_spec(s: Seq<LocToken>) -> Result<(), Error> {
    check_scan(s, 0, Seq::empty())
}

/// The scan accepts exactly the balanced streams.
proof fn lemma_check_scan_balanced(s: Seq<LocToken>, i: int, stack: Seq<(usize, usize)>)
    requires
        0 <= i <= s.len(),
        stack.len() == net(toks(s).subrange(0, i)),
        forall|m: int| 0 <= m <= i ==> net(#[trigger] toks(s).subrange(0, m)) >= 0,
    ensures
        check_scan(s, i, stack) is Ok <==> balanced(toks(s)),
    decreases s.len() - i,
{
    let ts = toks(s);
    assert(ts.len() == s.len());
    if i == s.len() {
        assert(ts.subrange(0, i) =~= ts);
        if stack.len() == 0 {
            assert(balanced(ts));
        } else {
            assert(net(ts) != 0);
        }
    } else {
        lemma_net_step(ts, i);
        assert(ts[i] == s[i].0);
        match s[i].0 {
            Token::OpenBr(_) => {
                lemma_check_scan_balanced(s, i + 1, stack.push((s[i].1, s[i].2)));
            },
            Token::CloseBr(_) => {
                if stack.len() == 0 {
                    assert(net(ts.subrange(0, i + 1)) == -1);
                    assert(!balanced(ts));
                } else {
                    lemma_check_scan_balanced(s, i + 1, stack.drop_last());
                }
            },
            _ => {
                lemma_check_scan_balanced(s, i + 1, stack);
            },
        }
    }
}

/// Check whether the loops are correct: every bracket has its match.
/// Reports the first unmatched close bracket, else the most recently
/// opened bracket that is never closed, with its source location.
pub fn check_loops(tokens: &Vec<LocToken>) -> (r: Result<(), Error>)
    ensures
        r == check_spec(tokens@),
        r is Ok <==> balanced(toks(tokens@)),
{
    proof {
        assert(toks(tokens@).subrange(0, 0) =~= Seq::<Token>::empty());
        lemma_check_scan_balanced(tokens@, 0, Seq::empty());
        assert(check_spec(tokens@) == check_scan(tokens@, 0, Seq::empty()));
    }
    let mut loop_stack: Vec<(usize, usize)> = Vec::new();
    let n = tokens.len();
    let mut i: usize = 0;
    while i < n
        invariant
            0 <= i <= n,
            n == tokens@.len(),
            check_scan(tokens@, i as int, loop_stack@) == check_spec(tokens@),
            check_spec(tokens@) is Ok <==> balanced(toks(tokens@)),
        decreases n - i,
    {
        let t = tokens[i];
        match t.0 {
            Token::OpenBr(_) => {
                loop_stack.push((t.1, t.2));
            },
            Token::CloseBr(_) => {
                if loop_stack.len() == 0 {
                    return Err(Error::UnmatchedCloseBr(t.1, t.2));
                } else {
                    loop_stack.pop();
                }
            },
            _ => {},
        }
        i = i + 1;
    }
    match loop_stack.pop() {
        Some(rc) => Err(Error::UnmatchedOpenBr(rc.0, rc.1)),
        None => Ok(()),
    }
}

/// The token a source character lexes to, if any: everything but the
/// eight meaningful characters is a comment.
pub open spec fn char_token(c: char) -> Option<Token> {
    if c == '+' {
        Some(Token::Add(1u8))
    } else if c == '-' {
        Some(Token::Add(255u8))
    } else if c == '<' {
        Some(Token::Move((STORAGE_SIZE - 1) as usize))
    } else if c == '>' {
        Some(Token::Move(1usize))
    } else if c == ',' {
        Some(Token::Input)
    } else if c == '.' {
        Some(Token::Output)
    } else if c == '[' {
        Some(Token::OpenBr(0usize))
    } else if c == ']' {
        Some(Token::CloseBr(0usize))
    } else {
        None
    }
}

/// The tokens lexed from `text` starting at position `i`, with the
/// 1-based `line` and `col` counters at that position: a line break
/// advances the line counter and resets the column counter, every other
/// character advances the column counter, and the meaningful characters
/// are emitted with their location.
pub open spec fn lex_from(text: Seq<char>, i: int, line: int, col: int) -> Seq<LocToken>
    decreases text.len() - i,
{
    if i < 0 || i >= text.len() {
        Seq::empty()
    } else if text[i] == '\n' {
        lex_from(text, i + 1, line + 1, 1)
    } else {
        match char_token(text[i]) {
            Some(t) => seq![(t, line as usize, col as usize)] + lex_from(text, i + 1, line, col + 1),
            None => lex_from(text, i + 1, line, col + 1),
        }
    }
}

/// The tokens lexed from a whole source text.
pub open spec fn lex_spec(text: Seq<char>) -> Seq<LocToken> {
    lex_from(text, 0, 1, 1)
}

/// Map source characters to primitive tokens with their (line, column)
/// locations. No errors can occur at this stage.
pub fn lex(code: &str) -> (r: Vec<LocToken>)
    requires
        code@.len() < usize::MAX,
    ensures
        r@ == lex_spec(code@),
{
    let n = code.unicode_len();
    let mut out: Vec<LocToken> = Vec::new();
    let mut i: usize = 0;
    let mut line: usize = 1;
    let mut col: usize = 1;
    while i < n
        invariant
            i <= n,
            n == code@.len(),
            n < usize::MAX,
            1 <= line <= i + 1,
            1 <= col <= i + 1,
            lex_spec(code@) == out@ + lex_from(code@, i as int, line as int, col as int),
        decreases n - i,
    {
        let c = code.get_char(i);
        let ghost pre_out = out@;
        if c == '\n' {
            line = line + 1;
            col = 1;
        } else {
            match c {
                '+' => out.push((Token::Add(1), line, col)),
                '-' => out.push((Token::Add(255), line, col)),
                '<' => out.push((Token::Move(STORAGE_SIZE - 1), line, col)),
                '>' => out.push((Token::Move(1), line, col)),
                ',' => out.push((Token::Input, line, col)),
                '.' => out.push((Token::Output, line, col)),
                '[' => out.push((Token::OpenBr(0), line, col)),
                ']' => out.push((Token::CloseBr(0), line, col)),
                _ => {},
            }
            proof {
                if char_token(c) is Some {
                    assert(out@ =~= pre_out + seq![
                        (char_token(c).unwrap(), line as usize, col as usize),
                    ]);
                    assert(pre_out + (seq![(char_token(c).unwrap(), line as usize, col as usize)]
                        + lex_from(code@, i as int + 1, line as int, col as int + 1)) =~= out@
                        + lex_from(code@, i as int + 1, line as int, col as int + 1));
                }
            }
            col = col + 1;
        }
        i = i + 1;
    }
    out
}

/// A payload fits the place it stands in: additions are nonzero, moves
/// and add-to distances lie strictly between zero and the tape size,
/// and the two distances of an add-to-copy differ.
pub open spec fn op_valid(t: Token) -> bool {
    match t {
        Token::Add(n) => n != 0,
        Token::Move(m) => 1 <= m < STORAGE_SIZE,
        Token::AddTo(d) => 1 <= d < STORAGE_SIZE,
        Token::AddToCopy(d1, d2) => 1 <= d1 < STORAGE_SIZE && 1 <= d2 < STORAGE_SIZE && d1 != d2,
        _ => true,
    }
}

/// Every token of the located stream has a valid payload.
pub open spec fn ops_valid(s: Seq<LocToken>) -> bool {
    forall|j: int| 0 <= j < s.len() ==> op_valid(#[trigger] s[j].0)
}

/// Every opcode of a bare stream has a valid payload.
pub open spec fn stream_valid(s: Seq<Token>) -> bool {
    forall|j: int| 0 <= j < s.len() ==> op_valid(#[trigger] s[j])
}

/// A finalized stream: every bracket carries the exact distance to its
/// match, and every payload is valid. This is what the execution
/// engines require.
pub open spec fn wf_stream(s: Seq<Token>) -> bool {
    jumps_resolved(s) && stream_valid(s)
}

/// The lexer only emits tokens with valid payloads.
proof fn lemma_lex_valid(text: Seq<char>, i: int, line: int, col: int)
    ensures
        ops_valid(lex_from(text, i, line, col)),
    decreases text.len() - i,
{
    if 0 <= i < text.len() {
        if text[i] == '\n' {
            lemma_lex_valid(text, i + 1, line + 1, 1);
        } else {
            lemma_lex_valid(text, i + 1, line, col + 1);
        }
    }
}

/// The adjacency merge keeps every payload valid.
proof fn lemma_merged_valid(s: Seq<LocToken>)
    requires
        ops_valid(s),
    ensures
        ops_valid(merged(s)),
    decreases s.len(),
{
    if s.len() > 0 {
        assert(ops_valid(s.drop_last()));
        lemma_merged_valid(s.drop_last());
        assert(s.last() == s[s.len() - 1]);
        let acc = merged(s.drop_last());
        assert forall|j: int| 0 <= j < merge_push(acc, s.last()).len() implies op_valid(
            #[trigger] merge_push(acc, s.last())[j].0,
        ) by {}
    }
}

/// Absorbing keeps every payload valid.
proof fn lemma_absorb_valid(s: Seq<LocToken>, i: int)
    requires
        ops_valid(s),
    ensures
        ops_valid(absorb(s, i).0),
    decreases i,
{
    if 0 < i && i + 1 < s.len() && is_open(s[i - 1].0) && is_close(s[i + 1].0) {
        let s2 = s.subrange(0, i - 1).push((s[i].0, s[i - 1].1, s[i - 1].2)) + s.subrange(
            i + 2,
            s.len() as int,
        );
        assert forall|j: int| 0 <= j < s2.len() implies op_valid(#[trigger] s2[j].0) by {
            if j < i - 1 {
                assert(s2[j] == s[j]);
            } else if j == i - 1 {
                assert(s2[j].0 == s[i].0);
            } else {
                assert(s2[j] == s[j + 2]);
            }
        }
        lemma_absorb_valid(s2, i - 1);
    }
}

/// True of open brackets.
pub open spec fn is_open(t: Token) -> bool {
    match t {
        Token::OpenBr(_) => true,
        _ => false,
    }
}

/// True of close brackets.
pub open spec fn is_close(t: Token) -> bool {
    match t {
        Token::CloseBr(_) => true,
        _ => false,
    }
}

/// `b` is `a` with at most the bracket payloads rewritten: same length,
/// same locations, brackets stay brackets of the same kind, and every
/// other token is untouched.
pub open spec fn same_skeleton(a: Seq<LocToken>, b: Seq<LocToken>) -> bool {
    &&& a.len() == b.len()
    &&& forall|i: int|
        0 <= i < a.len() ==> {
            &&& (#[trigger] b[i]).1 == a[i].1
            &&& b[i].2 == a[i].2
            &&& (is_open(a[i].0) <==> is_open(b[i].0))
            &&& (is_close(a[i].0) <==> is_close(b[i].0))
            &&& (!is_open(a[i].0) && !is_close(a[i].0) ==> b[i] == a[i])
        }
}

/// The close bracket at `j` carries the distance to its open bracket,
/// which carries the same distance and does not sit on `st`.
pub open spec fn close_resolved(cur: Seq<LocToken>, st: Seq<usize>, j: int) -> bool {
    match cur[j].0 {
        Token::CloseBr(d) => 1 <= d <= j && cur[j - d as int].0 == Token::OpenBr(d)
            && !st.contains((j - d) as usize),
        _ => false,
    }
}

/// The bracket pair opening at `j` with distance `d` is properly
/// nested in `s`: the bracket count returns to its level at `j` right
/// after the close, and stays strictly above it in between. Only one
/// close position satisfies this for a given open, so the distance is
/// pinned.
pub open spec fn open_nets(s: Seq<Token>, j: int, d: int) -> bool {
    &&& net(s.subrange(0, j)) == net(s.subrange(0, j + d + 1))
    &&& forall|m: int| j < m <= j + d ==> net(#[trigger] s.subrange(0, m)) > net(s.subrange(0, j))
}

/// Every open bracket's distance points at the close bracket that
/// properly matches it, in the sense of [`open_nets`].
pub open spec fn properly_matched(s: Seq<Token>) -> bool {
    forall|i: int|
        0 <= i < s.len() ==> match #[trigger] s[i] {
            Token::OpenBr(d) => open_nets(s, i, d as int),
            _ => true,
        }
}

/// The open bracket at `j` carries the distance to its close bracket,
/// which lies below `bound`, carries the same distance, and properly
/// matches it.
pub open spec fn open_resolved(cur: Seq<LocToken>, ts0: Seq<Token>, j: int, bound: int) -> bool {
    match cur[j].0 {
        Token::OpenBr(d) => 1 <= d && j + d < bound && cur[j + d as int].0 == Token::CloseBr(d)
            && open_nets(ts0, j, d as int),
        _ => false,
    }
}

/// Bracket symmetry of a finalized stream: for every index `i` holding
/// `OpenBr(d)` the opcode at `i + d` is `CloseBr(d)`, and for every
/// index `j` holding `CloseBr(d)` the opcode at `j - d` is `OpenBr(d)`.
pub open spec fn jumps_resolved(s: Seq<Token>) -> bool {
    forall|i: int|
        0 <= i < s.len() ==> match #[trigger] s[i] {
            Token::OpenBr(d) => 1 <= d && i + d < s.len() && s[i + d as int] == Token::CloseBr(d),
            Token::CloseBr(d) => 1 <= d <= i && s[i - d as int] == Token::OpenBr(d),
            _ => true,
        }
}

/// Collapse the loops that immediately surround the replacement token
/// at position `i`: as long as an open bracket stands directly before
/// it and a close bracket directly after it, the pair is removed and
/// the replacement token moves onto the open bracket's position,
/// keeping that bracket's location. Returns the new stream and the new
/// position of the replacement token.
pub open spec fn absorb(s: Seq<LocToken>, i: int) -> (Seq<LocToken>, int)
    decreases i,
{
    if 0 < i && i + 1 < s.len() && is_open(s[i - 1].0) && is_close(s[i + 1].0) {
        let s2 = s.subrange(0, i - 1).push((s[i].0, s[i - 1].1, s[i - 1].2)) + s.subrange(
            i + 2,
            s.len() as int,
        );
        absorb(s2, i - 1)
    } else {
        (s, i)
    }
}

/// Absorbing never moves the token right and never grows the stream.
pub proof fn lemma_absorb_le(s: Seq<LocToken>, i: int)
    requires
        0 <= i,
    ensures
        0 <= absorb(s, i).1 <= i,
    decreases i,
{
    if 0 < i && i + 1 < s.len() && is_open(s[i - 1].0) && is_close(s[i + 1].0) {
        let s2 = s.subrange(0, i - 1).push((s[i].0, s[i - 1].1, s[i - 1].2)) + s.subrange(
            i + 2,
            s.len() as int,
        );
        lemma_absorb_le(s2, i - 1);
    }
}

/// The clear-cell pass over the whole stream, scanning right to left
/// with `i` counting how many positions are still to be visited: a
/// loop whose body is one addition is replaced by `ClearCell`, and the
/// loops immediately around the replacement are collapsed into it.
pub open spec fn clear_pass(s: Seq<LocToken>, i: nat) -> Seq<LocToken>
    decreases i,
{
    if i == 0 {
        s
    } else {
        let idx = (i - 1) as nat;
        if s.len() >= idx + 3 && is_open(s[idx as int].0) && is_clearing_add(s[idx as int + 1].0)
            && is_close(s[idx as int + 2].0) {
            let s2 = s.subrange(0, idx as int).push(
                (Token::ClearCell, s[idx as int].1, s[idx as int].2),
            ) + s.subrange(idx as int + 3, s.len() as int);
            proof {
                lemma_absorb_le(s2, idx as int);
            }
            clear_pass(absorb(s2, idx as int).0, absorb(s2, idx as int).1 as nat)
        } else {
            clear_pass(s, idx)
        }
    }
}

/// Run the absorb loop in place, starting with the replacement token at
/// position `*i`.
fn absorb_loops(tokens: &mut Vec<LocToken>, i: &mut usize)
    requires
        *old(i) < old(tokens)@.len(),
    ensures
        (final(tokens)@, *final(i) as int) == absorb(old(tokens)@, *old(i) as int),
        *final(i) < final(tokens)@.len(),
{
    let ghost s0 = tokens@;
    let ghost i0 = *i as int;
    while *i > 0 && tokens.len() > *i + 1 && matches!(tokens[*i - 1].0, Token::OpenBr(_))
        && matches!(tokens[*i + 1].0, Token::CloseBr(_))
        invariant
            *i < tokens@.len(),
            absorb(tokens@, *i as int) == absorb(s0, i0),
        decreases *i,
    {
        let ghost pre = tokens@;
        let ghost pi = *i as int;
        let rep = tokens[*i];
        let opener = tokens[*i - 1];
        *i = *i - 1;
        tokens.set(*i, (rep.0, opener.1, opener.2));
        tokens.remove(*i + 1);
        tokens.remove(*i + 1);
        proof {
            assert(tokens@ =~= pre.subrange(0, pi - 1).push((pre[pi].0, pre[pi - 1].1, pre[pi
                - 1].2)) + pre.subrange(pi + 2, pre.len() as int));
        }
    }
}

/// Optimization: clear cell. Replaces every loop whose whole body is a
/// single addition by `ClearCell`, and collapses the loops immediately
/// around each replacement, scanning right to left so each collapse
/// exposes new surrounding pairs.
pub fn clear_cell(tokens: &mut Vec<LocToken>)
    ensures
        final(tokens)@ == clear_pass(old(tokens)@, old(tokens)@.len() as nat),
{
    let mut i: usize = tokens.len();
    while i > 0
        invariant
            i <= tokens@.len(),
            clear_pass(tokens@, i as nat) == clear_pass(old(tokens)@, old(tokens)@.len() as nat),
        decreases i,
    {
        i = i - 1;
        if tokens.len() - i >= 3 {
            let (t0, t1, t2) = (tokens[i], tokens[i + 1], tokens[i + 2]);
            match (t0.0, t1.0, t2.0) {
                (Token::OpenBr(_), Token::Add(av), Token::CloseBr(_)) if av != 0 => {
                    let ghost pre = tokens@;
                    tokens.set(i, (Token::ClearCell, t0.1, t0.2));
                    tokens.remove(i + 1);
                    tokens.remove(i + 1);
                    proof {
                        assert(tokens@ =~= pre.subrange(0, i as int).push(
                            (Token::ClearCell, pre[i as int].1, pre[i as int].2),
                        ) + pre.subrange(i as int + 3, pre.len() as int));
                    }
                    let ghost s2 = tokens@;
                    let ghost idx = i as int;
                    absorb_loops(tokens, &mut i);
                    proof {
                        lemma_absorb_le(s2, idx);
                    }
                },
                _ => {},
            }
        }
    }
}

/// `net` distributes over concatenation.
proof fn lemma_net_concat(a: Seq<Token>, b: Seq<Token>)
    ensures
        net(a + b) == net(a) + net(b),
    decreases b.len(),
{
    if b.len() == 0 {
        assert(a + b =~= a);
    } else {
        assert((a + b).drop_last() =~= a + b.drop_last());
        assert((a + b).last() == b.last());
        lemma_net_concat(a, b.drop_last());
    }
}

/// `net` of a singleton.
proof fn lemma_net_one(t: Token)
    ensures
        net(seq![t]) == tok_delta(t),
{
    assert(seq![t].drop_last() =~= Seq::<Token>::empty());
    assert(net(Seq::<Token>::empty()) == 0);
    assert(seq![t].last() == t);
}

/// Replacing a bracket-neutral window by one bracket-neutral token
/// keeps the stream balanced.
proof fn lemma_splice_neutral(a: Seq<Token>, w: Seq<Token>, b: Seq<Token>, t: Token)
    requires
        balanced(a + w + b),
        net(w) == 0,
        tok_delta(t) == 0,
    ensures
        balanced(a.push(t) + b),
{
    let src = a + w + b;
    let dst = a.push(t) + b;
    lemma_net_concat(a + w, b);
    lemma_net_concat(a, w);
    lemma_net_concat(a.push(t), b);
    assert(a.push(t) =~= a + seq![t]);
    lemma_net_concat(a, seq![t]);
    lemma_net_one(t);
    assert(net(dst) == net(src));
    assert forall|i: int| 0 <= i <= dst.len() implies net(#[trigger] dst.subrange(0, i)) >= 0 by {
        if i <= a.len() {
            assert(dst.subrange(0, i) =~= src.subrange(0, i));
            assert(net(src.subrange(0, i)) >= 0);
        } else if i == a.len() + 1 {
            assert(dst.subrange(0, i) =~= a + seq![t]);
            lemma_net_concat(a, seq![t]);
            lemma_net_one(t);
            assert(src.subrange(0, a.len() as int) =~= a);
            assert(net(src.subrange(0, a.len() as int)) >= 0);
        } else {
            let bp = b.subrange(0, i - a.len() - 1);
            assert(dst.subrange(0, i) =~= a + seq![t] + bp);
            lemma_net_concat(a + seq![t], bp);
            lemma_net_concat(a, seq![t]);
            lemma_net_one(t);
            let j = i - 1 + w.len();
            assert(src.subrange(0, j) =~= a + w + bp);
            lemma_net_concat(a + w, bp);
            lemma_net_concat(a, w);
            assert(net(src.subrange(0, j)) >= 0);
        }
    }
}

/// Absorbing surrounding loops keeps the stream balanced, provided the
/// absorbed token itself is not a bracket.
proof fn lemma_absorb_balanced(s: Seq<LocToken>, i: int)
    requires
        balanced(toks(s)),
        0 <= i < s.len(),
        tok_delta(s[i].0) == 0,
    ensures
        balanced(toks(absorb(s, i).0)),
        absorb(s, i).1 < absorb(s, i).0.len(),
        tok_delta(absorb(s, i).0[absorb(s, i).1].0) == 0,
    decreases i,
{
    if 0 < i && i + 1 < s.len() && is_open(s[i - 1].0) && is_close(s[i + 1].0) {
        let s2 = s.subrange(0, i - 1).push((s[i].0, s[i - 1].1, s[i - 1].2)) + s.subrange(
            i + 2,
            s.len() as int,
        );
        let a = toks(s).subrange(0, i - 1);
        let w = toks(s).subrange(i - 1, i + 2);
        let b = toks(s).subrange(i + 2, s.len() as int);
        assert(a + w + b =~= toks(s));
        assert(w =~= seq![toks(s)[i - 1]] + seq![toks(s)[i]] + seq![toks(s)[i + 1]]);
        lemma_net_concat(seq![toks(s)[i - 1]] + seq![toks(s)[i]], seq![toks(s)[i + 1]]);
        lemma_net_concat(seq![toks(s)[i - 1]], seq![toks(s)[i]]);
        lemma_net_one(toks(s)[i - 1]);
        lemma_net_one(toks(s)[i]);
        lemma_net_one(toks(s)[i + 1]);
        assert(net(w) == 0);
        lemma_splice_neutral(a, w, b, s[i].0);
        assert(toks(s2) =~= a.push(s[i].0) + b);
        assert(s2[i - 1].0 == s[i].0);
        lemma_absorb_balanced(s2, i - 1);
    }
}

/// The clear-cell pass keeps the stream balanced.
proof fn lemma_clear_pass_balanced(s: Seq<LocToken>, i: nat)
    requires
        balanced(toks(s)),
        i <= s.len(),
    ensures
        balanced(toks(clear_pass(s, i))),
    decreases i,
{
    if i > 0 {
        let idx = (i - 1) as nat;
        if s.len() >= idx + 3 && is_open(s[idx as int].0) && is_clearing_add(s[idx as int + 1].0)
            && is_close(s[idx as int + 2].0) {
            let s2 = s.subrange(0, idx as int).push(
                (Token::ClearCell, s[idx as int].1, s[idx as int].2),
            ) + s.subrange(idx as int + 3, s.len() as int);
            let a = toks(s).subrange(0, idx as int);
            let w = toks(s).subrange(idx as int, idx as int + 3);
            let b = toks(s).subrange(idx as int + 3, s.len() as int);
            assert(a + w + b =~= toks(s));
            assert(w =~= seq![toks(s)[idx as int]] + seq![toks(s)[idx as int + 1]] + seq![
                toks(s)[idx as int + 2],
            ]);
            lemma_net_concat(
                seq![toks(s)[idx as int]] + seq![toks(s)[idx as int + 1]],
                seq![toks(s)[idx as int + 2]],
            );
            lemma_net_concat(seq![toks(s)[idx as int]], seq![toks(s)[idx as int + 1]]);
            lemma_net_one(toks(s)[idx as int]);
            lemma_net_one(toks(s)[idx as int + 1]);
            lemma_net_one(toks(s)[idx as int + 2]);
            lemma_splice_neutral(a, w, b, Token::ClearCell);
            assert(toks(s2) =~= a.push(Token::ClearCell) + b);
            lemma_absorb_le(s2, idx as int);
            lemma_absorb_balanced(s2, idx as int);
            lemma_clear_pass_balanced(absorb(s2, idx as int).0, absorb(s2, idx as int).1 as nat);
        } else {
            lemma_clear_pass_balanced(s, idx);
        }
    }
}

/// The clear-cell pass keeps every payload valid.
proof fn lemma_clear_pass_valid(s: Seq<LocToken>, i: nat)
    requires
        ops_valid(s),
    ensures
        ops_valid(clear_pass(s, i)),
    decreases i,
{
    if i > 0 {
        let idx = (i - 1) as nat;
        if s.len() >= idx + 3 && is_open(s[idx as int].0) && is_clearing_add(s[idx as int + 1].0)
            && is_close(s[idx as int + 2].0) {
            let s2 = s.subrange(0, idx as int).push(
                (Token::ClearCell, s[idx as int].1, s[idx as int].2),
            ) + s.subrange(idx as int + 3, s.len() as int);
            assert forall|j: int| 0 <= j < s2.len() implies op_valid(#[trigger] s2[j].0) by {
                if j < idx as int {
                    assert(s2[j] == s[j]);
                } else if j > idx as int {
                    assert(s2[j] == s[j + 2]);
                }
            }
            lemma_absorb_valid(s2, idx as int);
            lemma_absorb_le(s2, idx as int);
            lemma_clear_pass_valid(absorb(s2, idx as int).0, absorb(s2, idx as int).1 as nat);
        } else {
            lemma_clear_pass_valid(s, idx);
        }
    }
}

/// Positions holding no open bracket are passed over by the clear
/// scan.
proof fn lemma_clear_pass_skip(s: Seq<LocToken>, i: nat, t: nat)
    requires
        t <= i <= s.len(),
        forall|j: int| t <= j < i ==> !is_open((#[trigger] s[j]).0),
    ensures
        clear_pass(s, i) == clear_pass(s, t),
    decreases i - t,
{
    if i > t {
        assert(!is_open(s[i - 1].0));
        lemma_clear_pass_skip(s, (i - 1) as nat, t);
    }
}

/// Absorbing from the middle of a fully nested shape — opens on the
/// left, closes on the right, one token in the middle — collapses the
/// whole shape onto the outermost open bracket's location.
proof fn lemma_absorb_full(s: Seq<LocToken>, j: nat)
    requires
        s.len() == 2 * j + 1,
        forall|q: int| 0 <= q < j ==> is_open((#[trigger] s[q]).0),
        forall|q: int| j < q < s.len() ==> is_close((#[trigger] s[q]).0),
        !is_open(s[j as int].0) && !is_close(s[j as int].0),
    ensures
        absorb(s, j as int).0 =~= seq![(s[j as int].0, s[0].1, s[0].2)],
        absorb(s, j as int).1 == 0,
    decreases j,
{
    if j == 0 {
        assert(absorb(s, 0) == (s, 0int));
        assert(s =~= seq![(s[0].0, s[0].1, s[0].2)]);
    } else {
        assert(is_open(s[j as int - 1].0) && is_close(s[j as int + 1].0));
        let s2 = s.subrange(0, j as int - 1).push((s[j as int].0, s[j as int - 1].1, s[j as int
            - 1].2)) + s.subrange(j as int + 2, s.len() as int);
        assert(s2.len() == 2 * (j - 1) + 1);
        assert forall|q: int| 0 <= q < j - 1 implies is_open((#[trigger] s2[q]).0) by {
            assert(s2[q] == s[q]);
        }
        assert forall|q: int| j - 1 < q < s2.len() implies is_close((#[trigger] s2[q]).0) by {
            assert(s2[q] == s[q + 2]);
        }
        assert(s2[j as int - 1].0 == s[j as int].0);
        lemma_absorb_full(s2, (j - 1) as nat);
        if j >= 2 {
            assert(s2[0] == s[0]);
        }
    }
}

/// The clear pass on a pure nesting of the clear loop — any number of
/// redundant loops wrapped directly around a loop whose body is one
/// nonzero addition — yields a single `ClearCell`, carrying the
/// outermost bracket's location.
pub proof fn lemma_clear_pass_nested(s: Seq<LocToken>, k: nat, n: u8)
    requires
        n != 0,
        s.len() == 2 * k + 3,
        forall|q: int| 0 <= q < k ==> is_open((#[trigger] s[q]).0),
        is_open(s[k as int].0),
        s[k as int + 1].0 == Token::Add(n),
        is_close(s[k as int + 2].0),
        forall|q: int| k + 3 <= q < s.len() ==> is_close((#[trigger] s[q]).0),
    ensures
        clear_pass(s, s.len() as nat) == seq![(Token::ClearCell, s[0].1, s[0].2)],
{
    assert forall|j: int| k + 1 <= j < s.len() implies !is_open((#[trigger] s[j]).0) by {
        if j == k + 1 {
            assert(s[j].0 == Token::Add(n));
        } else if j == k + 2 {
            assert(is_close(s[j].0));
        } else {
            assert(is_close(s[j].0));
        }
    }
    lemma_clear_pass_skip(s, s.len() as nat, (k + 1) as nat);
    // at the inner open bracket the window matches and is replaced
    assert(is_clearing_add(s[k as int + 1].0));
    let s2 = s.subrange(0, k as int).push((Token::ClearCell, s[k as int].1, s[k as int].2))
        + s.subrange(k as int + 3, s.len() as int);
    assert(s2.len() == 2 * k + 1);
    assert forall|q: int| 0 <= q < k implies is_open((#[trigger] s2[q]).0) by {
        assert(s2[q] == s[q]);
    }
    assert forall|q: int| k < q < s2.len() implies is_close((#[trigger] s2[q]).0) by {
        assert(s2[q] == s[q + 2]);
    }
    assert(s2[k as int].0 == Token::ClearCell);
    lemma_absorb_full(s2, k);
    lemma_absorb_le(s2, k as int);
    assert(clear_pass(s, (k + 1) as nat) == clear_pass(
        absorb(s2, k as int).0,
        absorb(s2, k as int).1 as nat,
    ));
    assert(clear_pass(absorb(s2, k as int).0, 0) == absorb(s2, k as int).0);
    if k >= 1 {
        assert(s2[0] == s[0]);
    }
    assert(absorb(s2, k as int).0 =~= seq![(Token::ClearCell, s[0].1, s[0].2)]);
}

/// A repeated single character: each position holds it.
proof fn lemma_repeat_single(c: char, k: nat)
    ensures
        crate::text::repeat_seq(seq![c], k).len() == k,
        forall|j: int| 0 <= j < k ==> crate::text::repeat_seq(seq![c], k)[j] == c,
    decreases k,
{
    if k > 0 {
        lemma_repeat_single(c, (k - 1) as nat);
    }
}

/// Lexing a single line of meaningful characters yields one token per
/// character, at line one with consecutive columns.
proof fn lemma_lex_line(text: Seq<char>, i: nat, col: nat)
    requires
        i <= text.len(),
        1 <= col,
        col + text.len() - i <= usize::MAX,
        forall|j: int|
            0 <= j < text.len() ==> (#[trigger] char_token(text[j])) is Some && text[j] != '\n',
    ensures
        lex_from(text, i as int, 1, col as int) =~= Seq::new(
            (text.len() - i) as nat,
            |j: int| (char_token(text[i + j]).unwrap(), 1usize, (col + j) as usize),
        ),
    decreases text.len() - i,
{
    if i < text.len() {
        lemma_lex_line(text, (i + 1) as nat, (col + 1) as nat);
        assert(lex_from(text, i as int, 1, col as int) == seq![
            (char_token(text[i as int]).unwrap(), 1usize, col as usize),
        ] + lex_from(text, i as int + 1, 1, col as int + 1));
    }
}

/// A stream too short to hold an add-to window passes the add-to pass
/// unchanged.
proof fn lemma_add_pass_short(s: Seq<LocToken>, i: nat)
    requires
        s.len() < 6,
    ensures
        add_pass(s, i) == s,
    decreases i,
{
    if i > 0 {
        lemma_add_pass_short(s, (i - 1) as nat);
    }
}

/// A stream too short to hold an add-to-copy window passes the
/// add-to-copy pass unchanged.
proof fn lemma_add_copy_pass_short(s: Seq<LocToken>, i: nat)
    requires
        s.len() < 8,
    ensures
        add_copy_pass(s, i) == s,
    decreases i,
{
    if i > 0 {
        lemma_add_copy_pass_short(s, (i - 1) as nat);
    }
}

/// The bracket count along a fully nested token stream: it climbs over
/// the opens, rests across the middle token, and descends over the
/// closes — never below zero, and back to zero at the end.
proof fn lemma_nested_net(tt: Seq<Token>, k: nat, m: int)
    requires
        tt.len() == 2 * k + 3,
        forall|j: int| 0 <= j <= k ==> is_open(#[trigger] tt[j]),
        !is_open(tt[k as int + 1]) && !is_close(tt[k as int + 1]),
        forall|j: int| k + 2 <= j < tt.len() ==> is_close(#[trigger] tt[j]),
        0 <= m <= tt.len(),
    ensures
        net(tt.subrange(0, m)) == if m <= k + 1 {
            m as int
        } else if m == k + 2 {
            k + 1 as int
        } else {
            2 * (k as int) + 3 - m
        },
    decreases m,
{
    if m == 0 {
        assert(tt.subrange(0, 0) =~= Seq::<Token>::empty());
    } else {
        lemma_nested_net(tt, k, m - 1);
        lemma_net_step(tt, m - 1);
    }
}

/// The source text of the clear loop wrapped in `k` redundant loops:
/// `k` open brackets, the loop that subtracts one, and `k` close
/// brackets.
pub open spec fn nested_clear_text(k: nat) -> Seq<char> {
    crate::text::repeat_seq(seq!['['], k) + seq!['[', '-', ']'] + crate::text::repeat_seq(
        seq![']'],
        k,
    )
}

/// Any pure nesting of the clear loop finalizes to the single
/// `ClearCell` opcode: the lexed and merged stream is balanced, the
/// pass chain collapses it to one `ClearCell` at line one, column one,
/// and every stream with that skeleton reads back as exactly
/// `[ClearCell]`. Together with the front end's contract this pins
/// processing such a source to `Ok` of that one opcode.
pub proof fn lemma_nested_clear_source(k: nat)
    requires
        2 * k + 4 <= usize::MAX,
    ensures
        ({
            let m = merged(lex_spec(nested_clear_text(k)));
            let c3 = add_copy_pass(
                add_pass(clear_pass(m, m.len()), clear_pass(m, m.len()).len()),
                add_pass(clear_pass(m, m.len()), clear_pass(m, m.len()).len()).len(),
            );
            &&& balanced(toks(m))
            &&& c3 == seq![(Token::ClearCell, 1usize, 1usize)]
            &&& forall|lt: Seq<LocToken>|
                same_skeleton(c3, lt) ==> toks(lt) =~= seq![Token::ClearCell]
        }),
{
    let text = nested_clear_text(k);
    lemma_repeat_single('[', k);
    lemma_repeat_single(']', k);
    assert(text.len() == 2 * k + 3);
    assert forall|j: int| 0 <= j < text.len() implies (#[trigger] char_token(text[j])) is Some
        && text[j] != '\n' by {
        if j < k {
            assert(text[j] == '[');
        } else if j < k + 3 {
            assert(text[j] == seq!['[', '-', ']'][j - k]);
        } else {
            assert(text[j] == ']');
        }
    }
    lemma_lex_line(text, 0, 1);
    let lexed = lex_spec(text);
    assert(lexed =~= Seq::new(
        text.len() as nat,
        |j: int| (char_token(text[j]).unwrap(), 1usize, (1 + j) as usize),
    ));
    assert(lexed.len() == 2 * k + 3);
    // the lexed tokens: opens, the subtracting loop, closes
    assert forall|j: int| 0 <= j <= k implies is_open((#[trigger] lexed[j]).0) by {
        if j < k {
            assert(text[j] == '[');
        } else {
            assert(text[j] == seq!['[', '-', ']'][0]);
        }
    }
    assert(text[k as int + 1] == seq!['[', '-', ']'][1]);
    assert(lexed[k as int + 1].0 == Token::Add(255u8));
    assert forall|j: int| k + 2 <= j < lexed.len() implies is_close((#[trigger] lexed[j]).0) by {
        if j == k + 2 {
            assert(text[j] == seq!['[', '-', ']'][2]);
        } else {
            assert(text[j] == ']');
        }
    }
    // nothing is mergeable, so the merge leaves the stream unchanged
    assert forall|i: int| 0 <= i && i + 1 < lexed.len() implies !(is_add(#[trigger] lexed[i].0)
        && is_add(lexed[i + 1].0)) && !(is_move(lexed[i].0) && is_move(lexed[i + 1].0)) by {
        if i + 1 <= k {
            assert(is_open(lexed[i + 1].0));
        } else if i + 1 == k + 1 {
            assert(is_open(lexed[i].0));
        } else {
            assert(is_close(lexed[i + 1].0));
        }
    }
    lemma_merge_of_normal(lexed);
    let m = merged(lexed);
    assert(m == lexed);
    // the brackets are matched
    let tt = toks(m);
    assert(tt.len() == 2 * k + 3);
    assert forall|j: int| 0 <= j <= k implies is_open(#[trigger] tt[j]) by {
        assert(tt[j] == m[j].0);
    }
    assert(tt[k as int + 1] == m[k as int + 1].0);
    assert forall|j: int| k + 2 <= j < tt.len() implies is_close(#[trigger] tt[j]) by {
        assert(tt[j] == m[j].0);
    }
    assert forall|q: int| 0 <= q <= tt.len() implies net(#[trigger] tt.subrange(0, q)) >= 0 by {
        lemma_nested_net(tt, k, q);
    }
    lemma_nested_net(tt, k, tt.len() as int);
    assert(tt.subrange(0, tt.len() as int) =~= tt);
    assert(balanced(tt));
    // the clear pass collapses the whole nesting to one opcode
    lemma_clear_pass_nested(m, k, 255u8);
    let c1 = clear_pass(m, m.len());
    assert(c1 == seq![(Token::ClearCell, m[0].1, m[0].2)]);
    assert(m[0].1 == 1usize && m[0].2 == 1usize);
    lemma_add_pass_short(c1, c1.len());
    let c2 = add_pass(c1, c1.len());
    lemma_add_copy_pass_short(c2, c2.len());
    let c3 = add_copy_pass(c2, c2.len());
    assert(c3 =~= seq![(Token::ClearCell, 1usize, 1usize)]);
    assert forall|lt: Seq<LocToken>| same_skeleton(c3, lt) implies toks(lt) =~= seq![
        Token::ClearCell,
    ] by {
        assert(lt[0] == c3[0]);
        assert(toks(lt)[0] == lt[0].0);
    }
}

/// The six-token window recognized as an add-to loop: subtract one,
/// move by `m1`, add one, move back by `m2`, with the two moves
/// cancelling modulo the tape size.
pub open spec fn addto_window(s: Seq<LocToken>, idx: int) -> bool {
    &&& 0 <= idx
    &&& idx + 6 <= s.len()
    &&& is_open(s[idx].0)
    &&& s[idx + 1].0 == Token::Add(255u8)
    &&& is_move(s[idx + 2].0)
    &&& s[idx + 3].0 == Token::Add(1u8)
    &&& is_move(s[idx + 4].0)
    &&& is_close(s[idx + 5].0)
    &&& (s[idx + 2].0->Move_0 as int + s[idx + 4].0->Move_0 as int) % (STORAGE_SIZE as int) == 0
}

/// The add-to pass over the whole stream, scanning right to left: each
/// recognized window is replaced by `AddTo` with the first move's
/// distance, and the loops immediately around the replacement are
/// collapsed into it.
pub open spec fn add_pass(s: Seq<LocToken>, i: nat) -> Seq<LocToken>
    decreases i,
{
    if i == 0 {
        s
    } else {
        let idx = (i - 1) as nat;
        if addto_window(s, idx as int) {
            let s2 = s.subrange(0, idx as int).push(
                (Token::AddTo(s[idx as int + 2].0->Move_0), s[idx as int].1, s[idx as int].2),
            ) + s.subrange(idx as int + 6, s.len() as int);
            proof {
                lemma_absorb_le(s2, idx as int);
            }
            add_pass(absorb(s2, idx as int).0, absorb(s2, idx as int).1 as nat)
        } else {
            add_pass(s, idx)
        }
    }
}

/// `net` of a stream that starts with an open bracket and continues
/// with bracket-neutral tokens.
proof fn lemma_net_open_zeros(v: Seq<Token>)
    requires
        v.len() >= 1,
        is_open(v[0]),
        forall|j: int| 1 <= j < v.len() ==> tok_delta(#[trigger] v[j]) == 0,
    ensures
        net(v) == 1,
    decreases v.len(),
{
    if v.len() == 1 {
        assert(v =~= seq![v[0]]);
        lemma_net_one(v[0]);
    } else {
        assert(v.drop_last()[0] == v[0]);
        assert forall|j: int| 1 <= j < v.drop_last().len() implies tok_delta(
            #[trigger] v.drop_last()[j],
        ) == 0 by {
            assert(v.drop_last()[j] == v[j]);
        }
        lemma_net_open_zeros(v.drop_last());
        assert(v.last() == v[v.len() - 1]);
    }
}

/// `net` of a window that opens with one bracket, closes with its
/// partner, and holds only bracket-neutral tokens in between.
proof fn lemma_net_window(w: Seq<Token>)
    requires
        w.len() >= 2,
        is_open(w[0]),
        is_close(w[w.len() - 1]),
        forall|j: int| 1 <= j < w.len() - 1 ==> tok_delta(#[trigger] w[j]) == 0,
    ensures
        net(w) == 0,
{
    assert(w.drop_last()[0] == w[0]);
    assert forall|j: int| 1 <= j < w.drop_last().len() implies tok_delta(
        #[trigger] w.drop_last()[j],
    ) == 0 by {
        assert(w.drop_last()[j] == w[j]);
    }
    lemma_net_open_zeros(w.drop_last());
    assert(w.last() == w[w.len() - 1]);
}

/// The add-to pass keeps the stream balanced.
proof fn lemma_add_pass_balanced(s: Seq<LocToken>, i: nat)
    requires
        balanced(toks(s)),
        i <= s.len(),
    ensures
        balanced(toks(add_pass(s, i))),
    decreases i,
{
    if i > 0 {
        let idx = (i - 1) as nat;
        if addto_window(s, idx as int) {
            let s2 = s.subrange(0, idx as int).push(
                (Token::AddTo(s[idx as int + 2].0->Move_0), s[idx as int].1, s[idx as int].2),
            ) + s.subrange(idx as int + 6, s.len() as int);
            let a = toks(s).subrange(0, idx as int);
            let w = toks(s).subrange(idx as int, idx as int + 6);
            let b = toks(s).subrange(idx as int + 6, s.len() as int);
            assert(a + w + b =~= toks(s));
            assert forall|j: int| 1 <= j < w.len() - 1 implies tok_delta(#[trigger] w[j]) == 0 by {
                assert(w[j] == s[idx as int + j].0);
            }
            assert(w[0] == s[idx as int].0);
            assert(w[5] == s[idx as int + 5].0);
            lemma_net_window(w);
            lemma_splice_neutral(a, w, b, Token::AddTo(s[idx as int + 2].0->Move_0));
            assert(toks(s2) =~= a.push(Token::AddTo(s[idx as int + 2].0->Move_0)) + b);
            lemma_absorb_le(s2, idx as int);
            lemma_absorb_balanced(s2, idx as int);
            lemma_add_pass_balanced(absorb(s2, idx as int).0, absorb(s2, idx as int).1 as nat);
        } else {
            lemma_add_pass_balanced(s, idx);
        }
    }
}

/// The add-to pass keeps every payload valid.
proof fn lemma_add_pass_valid(s: Seq<LocToken>, i: nat)
    requires
        ops_valid(s),
    ensures
        ops_valid(add_pass(s, i)),
    decreases i,
{
    if i > 0 {
        let idx = (i - 1) as nat;
        if addto_window(s, idx as int) {
            let m1 = s[idx as int + 2].0->Move_0;
            assert(op_valid(s[idx as int + 2].0));
            let s2 = s.subrange(0, idx as int).push(
                (Token::AddTo(m1), s[idx as int].1, s[idx as int].2),
            ) + s.subrange(idx as int + 6, s.len() as int);
            assert forall|j: int| 0 <= j < s2.len() implies op_valid(#[trigger] s2[j].0) by {
                if j < idx as int {
                    assert(s2[j] == s[j]);
                } else if j > idx as int {
                    assert(s2[j] == s[j + 5]);
                }
            }
            lemma_absorb_valid(s2, idx as int);
            lemma_absorb_le(s2, idx as int);
            lemma_add_pass_valid(absorb(s2, idx as int).0, absorb(s2, idx as int).1 as nat);
        } else {
            lemma_add_pass_valid(s, idx);
        }
    }
}

/// The add-to-copy pass keeps the stream balanced.
proof fn lemma_add_copy_pass_balanced(s: Seq<LocToken>, i: nat)
    requires
        balanced(toks(s)),
        i <= s.len(),
    ensures
        balanced(toks(add_copy_pass(s, i))),
    decreases i,
{
    if i > 0 {
        let idx = (i - 1) as nat;
        if addtocopy_window(s, idx as int) {
            let d2 = ((s[idx as int + 2].0->Move_0 as int + s[idx as int + 4].0->Move_0 as int) % (
            STORAGE_SIZE as int)) as usize;
            let nt = Token::AddToCopy(s[idx as int + 2].0->Move_0, d2);
            let s2 = s.subrange(0, idx as int).push((nt, s[idx as int].1, s[idx as int].2))
                + s.subrange(idx as int + 8, s.len() as int);
            let a = toks(s).subrange(0, idx as int);
            let w = toks(s).subrange(idx as int, idx as int + 8);
            let b = toks(s).subrange(idx as int + 8, s.len() as int);
            assert(a + w + b =~= toks(s));
            assert forall|j: int| 1 <= j < w.len() - 1 implies tok_delta(#[trigger] w[j]) == 0 by {
                assert(w[j] == s[idx as int + j].0);
            }
            assert(w[0] == s[idx as int].0);
            assert(w[7] == s[idx as int + 7].0);
            lemma_net_window(w);
            lemma_splice_neutral(a, w, b, nt);
            assert(toks(s2) =~= a.push(nt) + b);
            lemma_absorb_le(s2, idx as int);
            lemma_absorb_balanced(s2, idx as int);
            lemma_add_copy_pass_balanced(absorb(s2, idx as int).0, absorb(s2, idx as int).1 as nat);
        } else {
            lemma_add_copy_pass_balanced(s, idx);
        }
    }
}

/// The two distances of a recognized add-to-copy window are valid and
/// distinct.
proof fn lemma_addtocopy_payloads(s: Seq<LocToken>, idx: int)
    requires
        addtocopy_window(s, idx),
        ops_valid(s),
    ensures
        op_valid(
            Token::AddToCopy(
                s[idx + 2].0->Move_0,
                ((s[idx + 2].0->Move_0 as int + s[idx + 4].0->Move_0 as int) % (
                STORAGE_SIZE as int)) as usize,
            ),
        ),
{
    let m1 = s[idx + 2].0->Move_0 as int;
    let m2 = s[idx + 4].0->Move_0 as int;
    let m3 = s[idx + 6].0->Move_0 as int;
    let ss = STORAGE_SIZE as int;
    assert(op_valid(s[idx + 2].0));
    assert(op_valid(s[idx + 4].0));
    assert(op_valid(s[idx + 6].0));
    let x = (m1 + m2) % ss;
    assert(x == if m1 + m2 < ss {
        m1 + m2
    } else {
        m1 + m2 - ss
    }) by {
        if m1 + m2 < ss {
            assert((m1 + m2) % ss == m1 + m2) by (nonlinear_arith)
                requires
                    0 <= m1 + m2 < ss,
            ;
        } else {
            assert((m1 + m2) % ss == m1 + m2 - ss) by (nonlinear_arith)
                requires
                    ss <= m1 + m2 < 2 * ss,
            ;
        }
    }
    assert(0 <= x < ss);
    assert((x + m3) % ss == 0);
    assert(x + m3 == ss) by {
        if x + m3 < ss {
            assert((x + m3) % ss == x + m3) by (nonlinear_arith)
                requires
                    0 <= x + m3 < ss,
            ;
        } else {
            assert((x + m3) % ss == x + m3 - ss) by (nonlinear_arith)
                requires
                    ss <= x + m3 < 2 * ss,
            ;
        }
    }
    assert(1 <= x < ss);
    assert(x != m1);
}

/// The add-to-copy pass keeps every payload valid.
proof fn lemma_add_copy_pass_valid(s: Seq<LocToken>, i: nat)
    requires
        ops_valid(s),
    ensures
        ops_valid(add_copy_pass(s, i)),
    decreases i,
{
    if i > 0 {
        let idx = (i - 1) as nat;
        if addtocopy_window(s, idx as int) {
            let d2 = ((s[idx as int + 2].0->Move_0 as int + s[idx as int + 4].0->Move_0 as int) % (
            STORAGE_SIZE as int)) as usize;
            let nt = Token::AddToCopy(s[idx as int + 2].0->Move_0, d2);
            lemma_addtocopy_payloads(s, idx as int);
            let s2 = s.subrange(0, idx as int).push((nt, s[idx as int].1, s[idx as int].2))
                + s.subrange(idx as int + 8, s.len() as int);
            assert forall|j: int| 0 <= j < s2.len() implies op_valid(#[trigger] s2[j].0) by {
                if j < idx as int {
                    assert(s2[j] == s[j]);
                } else if j > idx as int {
                    assert(s2[j] == s[j + 7]);
                }
            }
            lemma_absorb_valid(s2, idx as int);
            lemma_absorb_le(s2, idx as int);
            lemma_add_copy_pass_valid(absorb(s2, idx as int).0, absorb(s2, idx as int).1 as nat);
        } else {
            lemma_add_copy_pass_valid(s, idx);
        }
    }
}

/// Optimization: add to. Replaces every loop of the shape recognized by
/// [`addto_window`] with `AddTo`, and collapses the loops immediately
/// around each replacement, scanning right to left.
pub fn add_to(tokens: &mut Vec<LocToken>)
    requires
        moves_bounded(old(tokens)@),
    ensures
        final(tokens)@ == add_pass(old(tokens)@, old(tokens)@.len() as nat),
{
    let mut i: usize = tokens.len();
    while i > 0
        invariant
            i <= tokens@.len(),
            moves_bounded(tokens@),
            add_pass(tokens@, i as nat) == add_pass(old(tokens)@, old(tokens)@.len() as nat),
        decreases i,
    {
        i = i - 1;
        if tokens.len() - i >= 6 {
            let w = (tokens[i], tokens[i + 1], tokens[i + 2], tokens[i + 3], tokens[i + 4],
            tokens[i + 5]);
            match (w.0.0, w.1.0, w.2.0, w.3.0, w.4.0, w.5.0) {
                (
                    Token::OpenBr(_),
                    Token::Add(255u8),
                    Token::Move(m1),
                    Token::Add(1u8),
                    Token::Move(m2),
                    Token::CloseBr(_),
                ) => {
                    if (m1 + m2) % STORAGE_SIZE == 0 {
                        let ghost pre = tokens@;
                        tokens.set(i, (Token::AddTo(m1), w.0.1, w.0.2));
                        let mut k: usize = 0;
                        while k < 5
                            invariant
                                k <= 5,
                                tokens@ =~= pre.update(i as int, (Token::AddTo(m1), pre[i as int].1, pre[i as int].2)).subrange(
                                    0,
                                    i as int + 1,
                                ) + pre.subrange(i as int + 1 + k as int, pre.len() as int),
                                i < tokens@.len(),
                                pre.len() >= i + 6,
                                i + 6 <= usize::MAX,
                            decreases 5 - k,
                        {
                            tokens.remove(i + 1);
                            k = k + 1;
                        }
                        proof {
                            assert(tokens@ =~= pre.subrange(0, i as int).push(
                                (Token::AddTo(m1), pre[i as int].1, pre[i as int].2),
                            ) + pre.subrange(i as int + 6, pre.len() as int));
                            assert(moves_bounded(tokens@));
                        }
                        let ghost s2 = tokens@;
                        let ghost idx = i as int;
                        absorb_loops(tokens, &mut i);
                        proof {
                            lemma_absorb_le(s2, idx);
                            lemma_absorb_moves_bounded(s2, idx);
                        }
                    }
                },
                _ => {},
            }
        }
    }
}

/// The eight-token window recognized as an add-to-copy loop: subtract
/// one, move by `m1`, add one, move by `m2`, add one, move back by
/// `m3`, with the three moves cancelling modulo the tape size.
pub open spec fn addtocopy_window(s: Seq<LocToken>, idx: int) -> bool {
    &&& 0 <= idx
    &&& idx + 8 <= s.len()
    &&& is_open(s[idx].0)
    &&& s[idx + 1].0 == Token::Add(255u8)
    &&& is_move(s[idx + 2].0)
    &&& s[idx + 3].0 == Token::Add(1u8)
    &&& is_move(s[idx + 4].0)
    &&& s[idx + 5].0 == Token::Add(1u8)
    &&& is_move(s[idx + 6].0)
    &&& is_close(s[idx + 7].0)
    &&& ((s[idx + 2].0->Move_0 as int + s[idx + 4].0->Move_0 as int) % (STORAGE_SIZE as int) + s[idx
        + 6].0->Move_0 as int) % (STORAGE_SIZE as int) == 0
}

/// The add-to-copy pass over the whole stream, scanning right to left:
/// each recognized window is replaced by `AddToCopy` carrying the two
/// destination distances, and the loops immediately around the
/// replacement are collapsed into it.
pub open spec fn add_copy_pass(s: Seq<LocToken>, i: nat) -> Seq<LocToken>
    decreases i,
{
    if i == 0 {
        s
    } else {
        let idx = (i - 1) as nat;
        if addtocopy_window(s, idx as int) {
            let d2 = ((s[idx as int + 2].0->Move_0 as int + s[idx as int + 4].0->Move_0 as int) % (
            STORAGE_SIZE as int)) as usize;
            let s2 = s.subrange(0, idx as int).push(
                (
                    Token::AddToCopy(s[idx as int + 2].0->Move_0, d2),
                    s[idx as int].1,
                    s[idx as int].2,
                ),
            ) + s.subrange(idx as int + 8, s.len() as int);
            proof {
                lemma_absorb_le(s2, idx as int);
            }
            add_copy_pass(absorb(s2, idx as int).0, absorb(s2, idx as int).1 as nat)
        } else {
            add_copy_pass(s, idx)
        }
    }
}

/// Optimization: add to copy. Replaces every loop of the shape
/// recognized by [`addtocopy_window`] with `AddToCopy`, and collapses
/// the loops immediately around each replacement, scanning right to
/// left.
pub fn add_to_copy(tokens: &mut Vec<LocToken>)
    requires
        moves_bounded(old(tokens)@),
    ensures
        final(tokens)@ == add_copy_pass(old(tokens)@, old(tokens)@.len() as nat),
{
    let mut i: usize = tokens.len();
    while i > 0
        invariant
            i <= tokens@.len(),
            moves_bounded(tokens@),
            add_copy_pass(tokens@, i as nat) == add_copy_pass(
                old(tokens)@,
                old(tokens)@.len() as nat,
            ),
        decreases i,
    {
        i = i - 1;
        if tokens.len() - i >= 8 {
            let w = (tokens[i], tokens[i + 1], tokens[i + 2], tokens[i + 3], tokens[i + 4],
            tokens[i + 5], tokens[i + 6], tokens[i + 7]);
            match (w.0.0, w.1.0, w.2.0, w.3.0, w.4.0, w.5.0, w.6.0, w.7.0) {
                (
                    Token::OpenBr(_),
                    Token::Add(255u8),
                    Token::Move(m1),
                    Token::Add(1u8),
                    Token::Move(m2),
                    Token::Add(1u8),
                    Token::Move(m3),
                    Token::CloseBr(_),
                ) => {
                    if ((m1 + m2) % STORAGE_SIZE + m3) % STORAGE_SIZE == 0 {
                        let ghost pre = tokens@;
                        tokens.set(i, (Token::AddToCopy(m1, (m1 + m2) % STORAGE_SIZE), w.0.1, w.0.2));
                        let mut k: usize = 0;
                        while k < 7
                            invariant
                                k <= 7,
                                tokens@ =~= pre.update(
                                    i as int,
                                    (
                                        Token::AddToCopy(
                                            m1,
                                            ((m1 as int + m2 as int) % (
                                            STORAGE_SIZE as int)) as usize,
                                        ),
                                        pre[i as int].1,
                                        pre[i as int].2,
                                    ),
                                ).subrange(0, i as int + 1) + pre.subrange(
                                    i as int + 1 + k as int,
                                    pre.len() as int,
                                ),
                                i < tokens@.len(),
                                pre.len() >= i + 8,
                                i + 8 <= usize::MAX,
                            decreases 7 - k,
                        {
                            tokens.remove(i + 1);
                            k = k + 1;
                        }
                        proof {
                            assert(tokens@ =~= pre.subrange(0, i as int).push(
                                (
                                    Token::AddToCopy(
                                        m1,
                                        ((m1 as int + m2 as int) % (STORAGE_SIZE as int)) as usize,
                                    ),
                                    pre[i as int].1,
                                    pre[i as int].2,
                                ),
                            ) + pre.subrange(i as int + 8, pre.len() as int));
                            assert(moves_bounded(tokens@));
                        }
                        let ghost s2 = tokens@;
                        let ghost idx = i as int;
                        absorb_loops(tokens, &mut i);
                        proof {
                            lemma_absorb_le(s2, idx);
                            lemma_absorb_moves_bounded(s2, idx);
                        }
                    }
                },
                _ => {},
            }
        }
    }
}

/// Absorbing keeps every move payload below the tape size.
proof fn lemma_absorb_moves_bounded(s: Seq<LocToken>, i: int)
    requires
        moves_bounded(s),
    ensures
        moves_bounded(absorb(s, i).0),
    decreases i,
{
    if 0 < i && i + 1 < s.len() && is_open(s[i - 1].0) && is_close(s[i + 1].0) {
        let s2 = s.subrange(0, i - 1).push((s[i].0, s[i - 1].1, s[i - 1].2)) + s.subrange(
            i + 2,
            s.len() as int,
        );
        assert forall|j: int| 0 <= j < s2.len() implies match (#[trigger] s2[j]).0 {
            Token::Move(m) => m < STORAGE_SIZE,
            _ => true,
        } by {
            if j < i - 1 {
                assert(s2[j] == s[j]);
            } else if j == i - 1 {
                assert(s2[j].0 == s[i].0);
            } else {
                assert(s2[j] == s[j + 2]);
            }
        }
        lemma_absorb_moves_bounded(s2, i - 1);
    }
}

/// Calculate the jump distances for the open and close brackets (used
/// by the execution engines): each bracket of a matched pair receives
/// the distance between the two.
pub fn calculate_jumps(tokens: &mut Vec<LocToken>)
    requires
        balanced(toks(old(tokens)@)),
    ensures
        same_skeleton(old(tokens)@, final(tokens)@),
        jumps_resolved(toks(final(tokens)@)),
        properly_matched(toks(final(tokens)@)),
{
    let ghost ts0 = toks(tokens@);
    let n = tokens.len();
    let mut loop_stack: Vec<usize> = Vec::new();
    let mut i: usize = 0;
    while i < n
        invariant
            i <= n,
            n == tokens@.len(),
            ts0 == toks(old(tokens)@),
            balanced(ts0),
            same_skeleton(old(tokens)@, tokens@),
            forall|j: int| i <= j < n ==> #[trigger] tokens@[j] == old(tokens)@[j],
            loop_stack@.len() == net(ts0.subrange(0, i as int)),
            forall|k: int|
                0 <= k < loop_stack@.len() ==> (#[trigger] loop_stack@[k]) < i && is_open(
                    ts0[loop_stack@[k] as int],
                ) && net(ts0.subrange(0, loop_stack@[k] as int)) == k,
            forall|k: int, m: int|
                #![trigger loop_stack@[k], ts0.subrange(0, m)]
                0 <= k < loop_stack@.len() && loop_stack@[k] < m && m <= i ==> net(
                    ts0.subrange(0, m),
                ) > k,
            forall|j: int|
                0 <= j < i && is_close(#[trigger] ts0[j]) ==> close_resolved(
                    tokens@,
                    loop_stack@,
                    j,
                ),
            forall|j: int|
                0 <= j < i && is_open(#[trigger] ts0[j]) && !loop_stack@.contains(j as usize)
                    ==> open_resolved(tokens@, ts0, j, i as int),
        decreases n - i,
    {
        let t = tokens[i];
        proof {
            lemma_net_step(ts0, i as int);
            assert(ts0[i as int] == t.0);
        }
        match t.0 {
            Token::OpenBr(_) => {
                let ghost pre_st = loop_stack@;
                loop_stack.push(i);
                proof {
                    assert(loop_stack@[loop_stack@.len() - 1] == i);
                    assert forall|j: int|
                        0 <= j < i + 1 && is_open(#[trigger] ts0[j]) && !loop_stack@.contains(
                            j as usize,
                        ) implies open_resolved(tokens@, ts0, j, i as int + 1) by {
                        assert(loop_stack@.contains(i as usize));
                        assert(j != i);
                        assert(!pre_st.contains(j as usize)) by {
                            if pre_st.contains(j as usize) {
                                let k = choose|k: int|
                                    0 <= k < pre_st.len() && pre_st[k] == j as usize;
                                assert(loop_stack@[k] == j as usize);
                            }
                        }
                        assert(open_resolved(tokens@, ts0, j, i as int));
                    }
                    assert forall|j: int| 0 <= j < i + 1 && is_close(#[trigger] ts0[j]) implies
                        close_resolved(tokens@, loop_stack@, j) by {
                        assert(j != i);
                        assert(close_resolved(tokens@, pre_st, j));
                        let d = tokens@[j].0->CloseBr_0;
                        assert(!loop_stack@.contains((j - d) as usize)) by {
                            if loop_stack@.contains((j - d) as usize) {
                                let k = choose|k: int|
                                    0 <= k < loop_stack@.len() && loop_stack@[k] == (j
                                        - d) as usize;
                                if k < loop_stack@.len() - 1 {
                                    assert(pre_st[k] == loop_stack@[k]);
                                } else {
                                    assert(loop_stack@[k] == i as usize);
                                }
                            }
                        }
                    }
                }
            },
            Token::CloseBr(_) => {
                proof {
                    if loop_stack@.len() == 0 {
                        assert(net(ts0.subrange(0, i as int + 1)) == -1);
                        assert(false);
                    }
                }
                let ghost old_cur = tokens@;
                let ghost old_st = loop_stack@;
                let open_br = match loop_stack.pop() {
                    Some(o) => o,
                    None => {
                        proof {
                            assert(false);
                        }
                        0
                    },
                };
                let distance = i - open_br;
                let opener = tokens[open_br];
                tokens.set(open_br, (Token::OpenBr(distance), opener.1, opener.2));
                tokens.set(i, (Token::CloseBr(distance), t.1, t.2));
                proof {
                    let o = open_br as int;
                    let ii = i as int;
                    // the popped index is on none of the remaining entries:
                    // the entries carry pairwise distinct prefix depths
                    assert forall|k: int| 0 <= k < loop_stack@.len() implies loop_stack@[k]
                        != open_br by {
                        assert(old_st[k] == loop_stack@[k]);
                        assert(old_st[old_st.len() - 1] == open_br);
                    }
                    assert(!loop_stack@.contains(open_br));
                    // every close bracket processed so far keeps its match
                    assert forall|j: int| 0 <= j < ii + 1 && is_close(#[trigger] ts0[j]) implies
                        close_resolved(tokens@, loop_stack@, j) by {
                        if j < ii {
                            assert(close_resolved(old_cur, old_st, j));
                            let d = old_cur[j].0->CloseBr_0;
                            assert(old_st.contains(open_br));
                            assert(j - d != o);
                            assert(j != o);
                            assert(tokens@[j] == old_cur[j]);
                            assert(tokens@[j - d as int] == old_cur[j - d as int]);
                            assert(!loop_stack@.contains((j - d) as usize)) by {
                                if loop_stack@.contains((j - d) as usize) {
                                    let k = choose|k: int|
                                        0 <= k < loop_stack@.len() && loop_stack@[k] == (j
                                            - d) as usize;
                                    assert(old_st[k] == (j - d) as usize);
                                }
                            }
                        } else {
                            assert(tokens@[ii].0 == Token::CloseBr(distance));
                            assert(tokens@[o].0 == Token::OpenBr(distance));
                        }
                    }
                    // every open bracket resolved so far keeps its match,
                    // and the popped one is resolved now
                    assert forall|j: int|
                        0 <= j < ii + 1 && is_open(#[trigger] ts0[j]) && !loop_stack@.contains(
                            j as usize,
                        ) implies open_resolved(tokens@, ts0, j, ii + 1) by {
                        if j == o {
                            assert(tokens@[o].0 == Token::OpenBr(distance));
                            assert(tokens@[ii].0 == Token::CloseBr(distance));
                            // the popped entry carried its prefix depth, and
                            // every prefix over the pair stayed above it
                            assert(old_st[old_st.len() - 1] == open_br);
                            assert(net(ts0.subrange(0, o)) == old_st.len() - 1);
                            assert(net(ts0.subrange(0, ii + 1)) == old_st.len() - 1);
                            assert forall|m: int| o < m <= ii implies net(
                                #[trigger] ts0.subrange(0, m),
                            ) > net(ts0.subrange(0, o)) by {
                                assert(old_st[old_st.len() - 1] < m <= i);
                            }
                            assert(open_nets(ts0, o, distance as int));
                        } else if j < ii {
                            assert(!old_st.contains(j as usize)) by {
                                if old_st.contains(j as usize) {
                                    let k = choose|k: int|
                                        0 <= k < old_st.len() && old_st[k] == j as usize;
                                    if k < old_st.len() - 1 {
                                        assert(loop_stack@[k] == old_st[k]);
                                    }
                                }
                            }
                            assert(open_resolved(old_cur, ts0, j, ii));
                            let d = old_cur[j].0->OpenBr_0;
                            assert(is_close(ts0[j + d as int]));
                            assert(j != o && j + d != o && j + d != ii);
                            assert(tokens@[j] == old_cur[j]);
                            assert(tokens@[j + d as int] == old_cur[j + d as int]);
                        }
                    }
                }
            },
            _ => {
                proof {
                    assert forall|j: int|
                        0 <= j < i + 1 && is_open(#[trigger] ts0[j]) && !loop_stack@.contains(
                            j as usize,
                        ) implies open_resolved(tokens@, ts0, j, i as int + 1) by {
                        assert(j != i);
                        assert(open_resolved(tokens@, ts0, j, i as int));
                    }
                    assert forall|j: int| 0 <= j < i + 1 && is_close(#[trigger] ts0[j]) implies
                        close_resolved(tokens@, loop_stack@, j) by {
                        assert(j != i);
                    }
                }
            },
        }
        proof {
            // the stack entries keep their depth facts one step further
            assert forall|k: int, m: int|
                #![trigger loop_stack@[k], ts0.subrange(0, m)]
                0 <= k < loop_stack@.len() && loop_stack@[k] < m && m <= i + 1 implies net(
                ts0.subrange(0, m),
            ) > k by {
                if m == i + 1 {
                    lemma_net_step(ts0, i as int);
                    assert(ts0.subrange(0, i as int) == ts0.subrange(0, i as int));
                }
            }
        }
        i = i + 1;
    }
    proof {
        assert(ts0.subrange(0, n as int) =~= ts0);
        assert(loop_stack@.len() == 0);
        let tsf = toks(tokens@);
        assert forall|m: int| 0 <= m <= n implies net(#[trigger] tsf.subrange(0, m)) == net(
            ts0.subrange(0, m),
        ) by {
            let pa = tsf.subrange(0, m);
            let pb = ts0.subrange(0, m);
            assert forall|q: int| 0 <= q < pa.len() implies tok_delta(#[trigger] pa[q])
                == tok_delta(pb[q]) by {
                assert(pa[q] == tsf[q] && pb[q] == ts0[q]);
                assert(tsf[q] == tokens@[q].0 && ts0[q] == old(tokens)@[q].0);
            }
            lemma_net_pointwise(pa, pb);
        }
        assert forall|j: int| 0 <= j < n implies match #[trigger] tsf[j] {
            Token::OpenBr(d) => open_nets(tsf, j, d as int),
            _ => true,
        } by {
            assert(tsf[j] == tokens@[j].0);
            if is_open(ts0[j]) {
                assert(!loop_stack@.contains(j as usize));
                assert(open_resolved(tokens@, ts0, j, n as int));
                let d = tokens@[j].0->OpenBr_0;
                assert(open_nets(ts0, j, d as int));
                assert forall|m: int| j < m <= j + d implies net(#[trigger] tsf.subrange(0, m))
                    > net(tsf.subrange(0, j)) by {
                    assert(net(ts0.subrange(0, m)) > net(ts0.subrange(0, j)));
                }
                assert(open_nets(tsf, j, d as int));
            }
        }
        assert forall|j: int| 0 <= j < n implies match #[trigger] toks(tokens@)[j] {
            Token::OpenBr(d) => 1 <= d && j + d < n && toks(tokens@)[j + d as int]
                == Token::CloseBr(d),
            Token::CloseBr(d) => 1 <= d <= j && toks(tokens@)[j - d as int] == Token::OpenBr(d),
            _ => true,
        } by {
            assert(toks(tokens@)[j] == tokens@[j].0);
            if is_open(ts0[j]) {
                assert(!loop_stack@.contains(j as usize));
                assert(open_resolved(tokens@, ts0, j, n as int));
                let d = tokens@[j].0->OpenBr_0;
                assert(toks(tokens@)[j + d as int] == tokens@[j + d as int].0);
            } else if is_close(ts0[j]) {
                assert(close_resolved(tokens@, loop_stack@, j));
                let d = tokens@[j].0->CloseBr_0;
                assert(toks(tokens@)[j - d as int] == tokens@[j - d as int].0);
            }
        }
    }
}

/// Streams of equal length whose tokens contribute equally to the
/// bracket count have equal `net`.
proof fn lemma_net_pointwise(a: Seq<Token>, b: Seq<Token>)
    requires
        a.len() == b.len(),
        forall|j: int| 0 <= j < a.len() ==> tok_delta(#[trigger] a[j]) == tok_delta(b[j]),
    ensures
        net(a) == net(b),
    decreases a.len(),
{
    if a.len() > 0 {
        assert forall|j: int| 0 <= j < a.drop_last().len() implies tok_delta(
            #[trigger] a.drop_last()[j],
        ) == tok_delta(b.drop_last()[j]) by {
            assert(a.drop_last()[j] == a[j] && b.drop_last()[j] == b[j]);
        }
        lemma_net_pointwise(a.drop_last(), b.drop_last());
        assert(a.last() == a[a.len() - 1] && b.last() == b[b.len() - 1]);
    }
}

/// Rewriting bracket payloads keeps the stream balanced: brackets stay
/// brackets of the same kind.
proof fn lemma_skeleton_balanced(a: Seq<LocToken>, b: Seq<LocToken>)
    requires
        same_skeleton(a, b),
        balanced(toks(a)),
    ensures
        balanced(toks(b)),
{
    let ta = toks(a);
    let tb = toks(b);
    assert forall|j: int| 0 <= j < ta.len() implies tok_delta(#[trigger] ta[j]) == tok_delta(
        tb[j],
    ) by {
        assert(ta[j] == a[j].0 && tb[j] == b[j].0);
    }
    lemma_net_pointwise(ta, tb);
    assert forall|m: int| 0 <= m <= tb.len() implies net(#[trigger] tb.subrange(0, m)) >= 0 by {
        let pa = ta.subrange(0, m);
        let pb = tb.subrange(0, m);
        assert forall|j: int| 0 <= j < pa.len() implies tok_delta(#[trigger] pa[j]) == tok_delta(
            pb[j],
        ) by {
            assert(pa[j] == ta[j] && pb[j] == tb[j]);
            assert(ta[j] == a[j].0 && tb[j] == b[j].0);
        }
        lemma_net_pointwise(pa, pb);
        assert(net(ta.subrange(0, m)) >= 0);
    }
}

/// Rewriting bracket payloads keeps every payload valid, since bracket
/// payloads are unconstrained and nothing else changes.
proof fn lemma_skeleton_valid(a: Seq<LocToken>, b: Seq<LocToken>)
    requires
        same_skeleton(a, b),
        ops_valid(a),
    ensures
        ops_valid(b),
{
    assert forall|j: int| 0 <= j < b.len() implies op_valid(#[trigger] b[j].0) by {
        assert(op_valid(a[j].0));
    }
}

/// Process raw source code into a finalized token stream: lex, merge
/// adjacent tokens, validate the brackets, recognize the clear-cell,
/// add-to and add-to-copy loop shapes, and resolve the jump distances.
///
/// Returns the finalized stream, or the first bracket error with its
/// 1-based line and column. The resulting stream is well formed: every
/// bracket carries the distance to its match, every payload is valid,
/// and no `Add(0)` or `Move(0)` remains.
pub fn process_code(code: &str) -> (r: Result<TokenStream, Error>)
    requires
        code@.len() < usize::MAX,
    ensures
        ({
            let m = merged(lex_spec(code@));
            let c1 = clear_pass(m, m.len());
            let c2 = add_pass(c1, c1.len());
            let c3 = add_copy_pass(c2, c2.len());
            match r {
                Ok(stream) => {
                    &&& balanced(toks(m))
                    &&& wf_stream(stream@)
                    &&& balanced(stream@)
                    &&& properly_matched(stream@)
                    &&& forall|j: int|
                        0 <= j < stream@.len() ==> #[trigger] stream@[j] != Token::Add(0u8)
                            && stream@[j] != Token::Move(0usize)
                    &&& exists|lt: Seq<LocToken>|
                        #[trigger] same_skeleton(c3, lt) && jumps_resolved(toks(lt)) && stream@
                            == toks(lt)
                },
                Err(e) => {
                    &&& !balanced(toks(m))
                    &&& Err::<(), Error>(e) == check_spec(m)
                },
            }
        }),
{
    let ghost text = code@;
    let tokens = lex(code);
    proof {
        lemma_lex_valid(text, 0, 1, 1);
        assert forall|j: int| 0 <= j < tokens@.len() implies match (#[trigger] tokens@[j]).0 {
            Token::Move(mv) => mv < STORAGE_SIZE,
            _ => true,
        } by {
            assert(op_valid(tokens@[j].0));
        }
    }
    let mut tokens = merge_adjacent(tokens);
    let ghost m = merged(lex_spec(text));
    proof {
        lemma_merged_valid(lex_spec(text));
    }
    match check_loops(&tokens) {
        Err(e) => {
            return Err(e);
        },
        Ok(_) => {},
    }
    proof {
        assert forall|j: int| 0 <= j < tokens@.len() implies match (#[trigger] tokens@[j]).0 {
            Token::Move(mv) => mv < STORAGE_SIZE,
            _ => true,
        } by {
            assert(op_valid(tokens@[j].0));
        }
    }
    clear_cell(&mut tokens);
    let ghost c1 = clear_pass(m, m.len());
    proof {
        lemma_clear_pass_balanced(m, m.len());
        lemma_clear_pass_valid(m, m.len());
        assert forall|j: int| 0 <= j < tokens@.len() implies match (#[trigger] tokens@[j]).0 {
            Token::Move(mv) => mv < STORAGE_SIZE,
            _ => true,
        } by {
            assert(op_valid(tokens@[j].0));
        }
    }
    add_to(&mut tokens);
    let ghost c2 = add_pass(c1, c1.len());
    proof {
        lemma_add_pass_balanced(c1, c1.len());
        lemma_add_pass_valid(c1, c1.len());
        assert forall|j: int| 0 <= j < tokens@.len() implies match (#[trigger] tokens@[j]).0 {
            Token::Move(mv) => mv < STORAGE_SIZE,
            _ => true,
        } by {
            assert(op_valid(tokens@[j].0));
        }
    }
    add_to_copy(&mut tokens);
    let ghost c3 = add_copy_pass(c2, c2.len());
    proof {
        lemma_add_copy_pass_balanced(c2, c2.len());
        lemma_add_copy_pass_valid(c2, c2.len());
    }
    calculate_jumps(&mut tokens);
    proof {
        lemma_skeleton_valid(c3, tokens@);
    }
    let n = tokens.len();
    let mut stream: Vec<Token> = Vec::new();
    let mut k: usize = 0;
    while k < n
        invariant
            k <= n,
            n == tokens@.len(),
            stream@ =~= toks(tokens@).subrange(0, k as int),
        decreases n - k,
    {
        stream.push(tokens[k].0);
        proof {
            assert(stream@ =~= toks(tokens@).subrange(0, k as int + 1));
        }
        k = k + 1;
    }
    proof {
        assert(stream@ =~= toks(tokens@));
        assert(stream_valid(stream@)) by {
            assert forall|j: int| 0 <= j < stream@.len() implies op_valid(#[trigger] stream@[j]) by {
                assert(stream@[j] == tokens@[j].0);
                assert(op_valid(tokens@[j].0));
            }
        }
        assert forall|j: int| 0 <= j < stream@.len() implies #[trigger] stream@[j] != Token::Add(
            0u8,
        ) && stream@[j] != Token::Move(0usize) by {
            assert(op_valid(stream@[j]));
        }
        assert(same_skeleton(c3, tokens@) && jumps_resolved(toks(tokens@)) && stream@ == toks(
            tokens@,
        ));
        lemma_skeleton_balanced(c3, tokens@);
    }
    Ok(stream)
}

} // verus!
