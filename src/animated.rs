//! The animated time display: a format specification split once into tokens
//! and blocks, re-sampled on every logic tick, and advanced toward each new
//! value on every render tick.

use crate::text::{copy_range, copy_text, same_text};
use crate::wall::{is_clock_reading, local_now, render, rendered, WallTime};
use vstd::prelude::*;

verus! {

// ---------------------------------------------------------------------------
// Model
// ---------------------------------------------------------------------------

/// The abstract state of one block.
pub ghost struct BlockState {
    pub is_constant: bool,
    pub progress: nat,
    pub threshold: nat,
    pub size: nat,
    pub current: Seq<char>,
    pub target: Seq<char>,
}

/// The abstract state of one token: its format fragment and its blocks.
pub ghost struct TokenState {
    pub format: Seq<char>,
    pub blocks: Seq<BlockState>,
}

/// Characters that may follow the escape marker without ending a directive.
pub open spec fn is_modifier(c: char) -> bool {
    c == '-' || c == '_' || c == '0'
}

/// Whether a pending fragment, whose last character was just appended, is a
/// complete token: a literal character, or a directive that has reached its
/// conversion character.
pub open spec fn closes(tok: Seq<char>) -> bool {
    tok[0] != '%' || tok.len() > 2 || (tok.len() == 2 && !is_modifier(tok[1]))
}

/// The tokens that scanning `rest` yields, given the fragment `pending`
/// accumulated so far. A fragment still open at the end yields no token.
pub open spec fn split_from(pending: Seq<char>, rest: Seq<char>) -> Seq<Seq<char>>
    decreases rest.len(),
{
    if rest.len() == 0 {
        Seq::empty()
    } else {
        let tok = pending.push(rest[0]);
        if closes(tok) {
            seq![tok] + split_from(Seq::empty(), rest.drop_first())
        } else {
            split_from(tok, rest.drop_first())
        }
    }
}

/// The format fragments of a format specification, left to right.
pub open spec fn fragments(fmt: Seq<char>) -> Seq<Seq<char>> {
    split_from(Seq::empty(), fmt)
}

/// The earlier of the two representative instants used to classify blocks.
pub open spec fn early_instant() -> WallTime {
    WallTime {
        year: 2222,
        month: 2,
        day: 2,
        hour: 1,
        minute: 0,
        second: 0,
        nano: 0,
        offset: 0,
    }
}

/// The later of the two representative instants used to classify blocks.
pub open spec fn late_instant() -> WallTime {
    WallTime {
        year: 3000,
        month: 11,
        day: 11,
        hour: 12,
        minute: 11,
        second: 11,
        nano: 111111111,
        offset: 0,
    }
}

/// The shape (constancy and width) of each block of a fragment. Renderings
/// of unequal length give one non-constant block as wide as the longer one;
/// renderings of equal length give one block per character, constant where
/// the two renderings agree.
pub open spec fn shapes(f: Seq<char>) -> Seq<(bool, nat)> {
    let a = rendered(f, early_instant());
    let b = rendered(f, late_instant());
    if a.len() != b.len() {
        seq![(false, if a.len() < b.len() { b.len() } else { a.len() })]
    } else {
        Seq::new(a.len(), |i: int| (a[i] == b[i], 1nat))
    }
}

/// A block of the given shape, at rest, with no value yet.
pub open spec fn blank_block(shape: (bool, nat), timing: nat) -> BlockState {
    BlockState {
        is_constant: shape.0,
        progress: 0,
        threshold: timing,
        size: shape.1,
        current: Seq::empty(),
        target: Seq::empty(),
    }
}

/// The token of a fragment, with blank blocks.
pub open spec fn blank_token(f: Seq<char>, timing: nat) -> TokenState {
    TokenState { format: f, blocks: shapes(f).map_values(|s: (bool, nat)| blank_block(s, timing)) }
}

/// The total width of a sequence of blocks.
pub open spec fn width(bs: Seq<BlockState>) -> nat
    decreases bs.len(),
{
    if bs.len() == 0 {
        0
    } else {
        width(bs.drop_last()) + bs.last().size
    }
}

/// The smaller of two integers.
pub open spec fn min_int(a: int, b: int) -> int {
    if a < b {
        a
    } else {
        b
    }
}

/// The characters of the rendering `s` that fall to block `j`: the next
/// `size` characters after the blocks before it, as far as `s` reaches.
pub open spec fn piece(s: Seq<char>, bs: Seq<BlockState>, j: int) -> Seq<char> {
    let start = width(bs.take(j)) as int;
    s.subrange(min_int(start, s.len() as int), min_int(start + bs[j].size, s.len() as int))
}

/// A token after sampling the instant `now`: each block's target is its
/// piece of the token's rendering; nothing else changes.
pub open spec fn sample_token(t: TokenState, now: WallTime) -> TokenState {
    let s = rendered(t.format, now);
    TokenState {
        format: t.format,
        blocks: Seq::new(
            t.blocks.len(),
            |j: int| BlockState { target: piece(s, t.blocks, j), ..t.blocks[j] },
        ),
    }
}

/// All tokens after sampling the instant `now`.
pub open spec fn sample_all(ts: Seq<TokenState>, now: WallTime) -> Seq<TokenState> {
    ts.map_values(|t: TokenState| sample_token(t, now))
}

/// A token whose blocks all show their target.
pub open spec fn settle_token(t: TokenState) -> TokenState {
    TokenState {
        format: t.format,
        blocks: t.blocks.map_values(|b: BlockState| BlockState { current: b.target, ..b }),
    }
}

/// The tokens of a freshly configured display: the fragments of `fmt`,
/// classified, sampled at `now`, and shown without a transition.
pub open spec fn configured(fmt: Seq<char>, timing: nat, now: WallTime) -> Seq<TokenState> {
    fragments(fmt).map_values(|f: Seq<char>| settle_token(sample_token(blank_token(f, timing), now)))
}

/// The block partition of a sequence of tokens: each token's fragment and
/// the constancy and width of each of its blocks.
pub open spec fn partition(ts: Seq<TokenState>) -> Seq<(Seq<char>, Seq<(bool, nat)>)> {
    ts.map_values(
        |t: TokenState|
            (t.format, t.blocks.map_values(|b: BlockState| (b.is_constant, b.size))),
    )
}

/// Whether a block, on this render tick, still moves toward its target.
pub open spec fn transitioning(b: BlockState) -> bool {
    !b.is_constant && b.progress <= b.threshold && b.target != b.current
}

/// One render tick of `elapsed` milliseconds on one block.
pub open spec fn advance_block(b: BlockState, elapsed: nat) -> BlockState {
    if b.is_constant {
        b
    } else if b.progress > b.threshold {
        BlockState { progress: 0, current: b.target, ..b }
    } else if b.target != b.current {
        BlockState { progress: b.progress + elapsed, ..b }
    } else {
        b
    }
}

/// One render tick on a token.
pub open spec fn advance_token(t: TokenState, elapsed: nat) -> TokenState {
    TokenState {
        format: t.format,
        blocks: t.blocks.map_values(|b: BlockState| advance_block(b, elapsed)),
    }
}

/// One render tick on all tokens.
pub open spec fn advance_all(ts: Seq<TokenState>, elapsed: nat) -> Seq<TokenState> {
    ts.map_values(|t: TokenState| advance_token(t, elapsed))
}

/// Whether any block of any token is transitioning.
pub open spec fn any_transitioning(ts: Seq<TokenState>) -> bool {
    exists|i: int, j: int|
        0 <= i < ts.len() && 0 <= j < ts[i].blocks.len() && #[trigger] transitioning(
            ts[i].blocks[j],
        )
}

/// Whether a non-constant block shows something other than its target.
pub open spec fn pending(b: BlockState) -> bool {
    !b.is_constant && b.target != b.current
}

/// Whether any non-constant block shows something other than its target.
pub open spec fn any_pending(ts: Seq<TokenState>) -> bool {
    exists|i: int, j: int|
        0 <= i < ts.len() && 0 <= j < ts[i].blocks.len() && #[trigger] pending(ts[i].blocks[j])
}

/// Every block's threshold is `timing`.
pub open spec fn thresholds_are(ts: Seq<TokenState>, timing: nat) -> bool {
    forall|i: int, j: int|
        0 <= i < ts.len() && 0 <= j < ts[i].blocks.len() ==> #[trigger] ts[i].blocks[j].threshold
            == timing
}

/// All tokens with every threshold set to `timing`.
pub open spec fn retimed(ts: Seq<TokenState>, timing: nat) -> Seq<TokenState> {
    ts.map_values(
        |t: TokenState|
            TokenState {
                format: t.format,
                blocks: t.blocks.map_values(|b: BlockState| BlockState { threshold: timing, ..b }),
            },
    )
}

// ---------------------------------------------------------------------------
// Tokenizer
// ---------------------------------------------------------------------------

/// Splits a format specification into its fragments: each literal character
/// is one, and each directive (the escape marker `%`, an optional padding
/// modifier `-`, `_` or `0`, and one more character) is one. An unfinished
/// directive at the end yields nothing.
pub fn split_format(fmt: &Vec<char>) -> (r: Vec<Vec<char>>)
    ensures
        r@.map_values(|v: Vec<char>| v@) == fragments(fmt@),
{
    let mut out: Vec<Vec<char>> = Vec::new();
    let mut tok: Vec<char> = Vec::new();
    let mut i: usize = 0;
    assert(out@.map_values(|v: Vec<char>| v@) =~= Seq::<Seq<char>>::empty());
    assert(fmt@.subrange(0, fmt.len() as int) =~= fmt@);
    assert(tok@ =~= Seq::<char>::empty());
    while i < fmt.len()
        invariant
            i <= fmt.len(),
            out@.map_values(|v: Vec<char>| v@) + split_from(tok@, fmt@.subrange(i as int, fmt.len() as int))
                == fragments(fmt@),
        decreases fmt.len() - i,
    {
        let ghost rest = fmt@.subrange(i as int, fmt.len() as int);
        let ghost before = out@.map_values(|v: Vec<char>| v@);
        let ch = fmt[i];
        tok.push(ch);
        assert(rest.drop_first() =~= fmt@.subrange(i + 1, fmt.len() as int));
        if tok[0] != '%' || tok.len() > 2 || (tok.len() == 2 && !(ch == '-' || ch == '_' || ch
            == '0')) {
            let ghost closed = tok@;
            out.push(tok);
            tok = Vec::new();
            assert(out@.map_values(|v: Vec<char>| v@) =~= before.push(closed));
            assert(before.push(closed) + split_from(Seq::empty(), rest.drop_first()) =~= before
                + (seq![closed] + split_from(Seq::empty(), rest.drop_first())));
        }
        i = i + 1;
    }
    assert(fmt@.subrange(fmt.len() as int, fmt.len() as int) =~= Seq::<char>::empty());
    assert(out@.map_values(|v: Vec<char>| v@) =~= fragments(fmt@));
    out
}


// ---------------------------------------------------------------------------
// Executable state
// ---------------------------------------------------------------------------

/// One animatable cell of the display.
#[derive(Debug)]
pub struct TokenBlock {
    /// The block never transitions.
    pub is_constant: bool,
    /// Milliseconds the current transition has run.
    pub transition_progress: u128,
    /// Milliseconds a transition lasts.
    pub transition_timing: u128,
    /// Characters the block occupies.
    pub size: usize,
    /// The value on display.
    pub curr_token: Vec<char>,
    /// The latest sampled value.
    pub new_token: Vec<char>,
}

impl View for TokenBlock {
    type V = BlockState;

    open spec fn view(&self) -> BlockState {
        BlockState {
            is_constant: self.is_constant,
            progress: self.transition_progress as nat,
            threshold: self.transition_timing as nat,
            size: self.size as nat,
            current: self.curr_token@,
            target: self.new_token@,
        }
    }
}

/// A fragment of the format specification and the blocks of its rendering.
#[derive(Debug)]
pub struct Token {
    pub format_string: Vec<char>,
    pub blocks: Vec<TokenBlock>,
}

impl View for Token {
    type V = TokenState;

    open spec fn view(&self) -> TokenState {
        TokenState {
            format: self.format_string@,
            blocks: self.blocks@.map_values(|b: TokenBlock| b@),
        }
    }
}

/// The representative instants as executable values.
fn early_value() -> (r: WallTime)
    ensures
        r == early_instant(),
{
    WallTime { year: 2222, month: 2, day: 2, hour: 1, minute: 0, second: 0, nano: 0, offset: 0 }
}

fn late_value() -> (r: WallTime)
    ensures
        r == late_instant(),
{
    WallTime {
        year: 3000,
        month: 11,
        day: 11,
        hour: 12,
        minute: 11,
        second: 11,
        nano: 111111111,
        offset: 0,
    }
}

/// The blank blocks of a fragment, classified by rendering it at the two
/// representative instants.
pub fn classify(f: &Vec<char>, timing: u128) -> (r: Vec<TokenBlock>)
    ensures
        r@.map_values(|b: TokenBlock| b@) == blank_token(f@, timing as nat).blocks,
{
    let a = render(f, early_value());
    let b = render(f, late_value());
    let mut blocks: Vec<TokenBlock> = Vec::new();
    if a.len() != b.len() {
        let size = if a.len() < b.len() {
            b.len()
        } else {
            a.len()
        };
        blocks.push(
            TokenBlock {
                is_constant: false,
                transition_progress: 0,
                transition_timing: timing,
                size,
                curr_token: Vec::new(),
                new_token: Vec::new(),
            },
        );
        assert(blocks@.map_values(|b: TokenBlock| b@) =~= blank_token(f@, timing as nat).blocks);
    } else {
        let mut i: usize = 0;
        while i < a.len()
            invariant
                a@ == rendered(f@, early_instant()),
                b@ == rendered(f@, late_instant()),
                a.len() == b.len(),
                i <= a.len(),
                blocks.len() == i,
                forall|k: int|
                    0 <= k < i ==> (#[trigger] blocks@[k])@ == blank_block(
                        (a@[k] == b@[k], 1nat),
                        timing as nat,
                    ),
            decreases a.len() - i,
        {
            blocks.push(
                TokenBlock {
                    is_constant: a[i] == b[i],
                    transition_progress: 0,
                    transition_timing: timing,
                    size: 1,
                    curr_token: Vec::new(),
                    new_token: Vec::new(),
                },
            );
            i = i + 1;
        }
        assert(blocks@.map_values(|b: TokenBlock| b@) =~= blank_token(f@, timing as nat).blocks);
    }
    blocks
}

proof fn lemma_width_step(bs: Seq<BlockState>, j: int)
    requires
        0 <= j < bs.len(),
    ensures
        width(bs.take(j + 1)) == width(bs.take(j)) + bs[j].size,
{
    assert(bs.take(j + 1).drop_last() =~= bs.take(j));
}

/// A copy of a block with a new target.
fn with_target(b: &TokenBlock, target: Vec<char>) -> (r: TokenBlock)
    ensures
        r@ == (BlockState { target: target@, ..b@ }),
{
    TokenBlock {
        is_constant: b.is_constant,
        transition_progress: b.transition_progress,
        transition_timing: b.transition_timing,
        size: b.size,
        curr_token: copy_text(&b.curr_token),
        new_token: target,
    }
}

/// Samples one token at `now`: renders its fragment and cuts the rendering
/// into its blocks' widths.
pub fn sample_token_at(t: &Token, now: WallTime) -> (r: Token)
    ensures
        r@ == sample_token(t@, now),
{
    let s = render(&t.format_string, now);
    let ghost bs = t@.blocks;
    let mut out: Vec<TokenBlock> = Vec::new();
    let mut pos: usize = 0;
    let mut j: usize = 0;
    assert(bs.take(0) =~= Seq::<BlockState>::empty());
    while j < t.blocks.len()
        invariant
            s@ == rendered(t@.format, now),
            bs == t@.blocks,
            j <= t.blocks.len(),
            pos <= s.len(),
            pos as int == min_int(width(bs.take(j as int)) as int, s.len() as int),
            out.len() == j,
            forall|k: int|
                0 <= k < j ==> (#[trigger] out@[k])@ == (BlockState {
                    target: piece(s@, bs, k),
                    ..bs[k]
                }),
        decreases t.blocks.len() - j,
    {
        let b = &t.blocks[j];
        let take: usize = if b.size <= s.len() - pos {
            b.size
        } else {
            s.len() - pos
        };
        let cut = copy_range(&s, pos, pos + take);
        proof {
            lemma_width_step(bs, j as int);
        }
        out.push(with_target(b, cut));
        pos = pos + take;
        j = j + 1;
    }
    let r = Token { format_string: copy_text(&t.format_string), blocks: out };
    assert(r@.blocks =~= sample_token(t@, now).blocks);
    r
}

/// A token whose blocks all show their target.
fn settle_token_exec(t: &Token) -> (r: Token)
    ensures
        r@ == settle_token(t@),
{
    let mut out: Vec<TokenBlock> = Vec::new();
    let mut j: usize = 0;
    while j < t.blocks.len()
        invariant
            j <= t.blocks.len(),
            out.len() == j,
            forall|k: int|
                0 <= k < j ==> (#[trigger] out@[k])@ == (BlockState {
                    current: t@.blocks[k].target,
                    ..t@.blocks[k]
                }),
        decreases t.blocks.len() - j,
    {
        let b = &t.blocks[j];
        out.push(
            TokenBlock {
                is_constant: b.is_constant,
                transition_progress: b.transition_progress,
                transition_timing: b.transition_timing,
                size: b.size,
                curr_token: copy_text(&b.new_token),
                new_token: copy_text(&b.new_token),
            },
        );
        j = j + 1;
    }
    let r = Token { format_string: copy_text(&t.format_string), blocks: out };
    assert(r@.blocks =~= settle_token(t@).blocks);
    r
}

/// The tokens of a display configured from `fmt` at the instant `now`.
pub fn configure(fmt: &Vec<char>, timing: u128, now: WallTime) -> (r: Vec<Token>)
    ensures
        r@.map_values(|t: Token| t@) == configured(fmt@, timing as nat, now),
{
    let frags = split_format(fmt);
    let ghost fs = fragments(fmt@);
    assert(frags.len() == fs.len()) by {
        assert(frags@.map_values(|v: Vec<char>| v@).len() == frags.len());
    }
    let mut out: Vec<Token> = Vec::new();
    let mut k: usize = 0;
    while k < frags.len()
        invariant
            frags@.map_values(|v: Vec<char>| v@) == fs,
            fs == fragments(fmt@),
            k <= frags.len(),
            out.len() == k,
            forall|m: int|
                0 <= m < k ==> (#[trigger] out@[m])@ == settle_token(
                    sample_token(blank_token(fs[m], timing as nat), now),
                ),
        decreases frags.len() - k,
    {
        assert(frags@[k as int]@ == fs[k as int]);
        let blank = Token { format_string: copy_text(&frags[k]), blocks: classify(&frags[k], timing) };
        assert(blank@ == blank_token(fs[k as int], timing as nat));
        let sampled = sample_token_at(&blank, now);
        out.push(settle_token_exec(&sampled));
        k = k + 1;
    }
    assert(out@.map_values(|t: Token| t@) =~= configured(fmt@, timing as nat, now));
    out
}


/// One render tick of `elapsed` milliseconds on one block; also says whether
/// the block was transitioning.
pub fn advance_block_exec(b: &TokenBlock, elapsed: u128) -> (r: (TokenBlock, bool))
    requires
        b.transition_timing + elapsed <= u128::MAX,
    ensures
        r.0@ == advance_block(b@, elapsed as nat),
        r.1 == transitioning(b@),
{
    let mut progress = b.transition_progress;
    let mut current = copy_text(&b.curr_token);
    let mut moving = false;
    if b.is_constant {
    } else if b.transition_progress > b.transition_timing {
        progress = 0;
        current = copy_text(&b.new_token);
    } else if !same_text(&b.new_token, &b.curr_token) {
        moving = true;
        progress = b.transition_progress + elapsed;
    }
    let r = TokenBlock {
        is_constant: b.is_constant,
        transition_progress: progress,
        transition_timing: b.transition_timing,
        size: b.size,
        curr_token: current,
        new_token: copy_text(&b.new_token),
    };
    (r, moving)
}

/// Every block leaves room to add `elapsed` to its threshold.
pub open spec fn room_for(ts: Seq<TokenState>, elapsed: nat) -> bool {
    forall|i: int, j: int|
        0 <= i < ts.len() && 0 <= j < ts[i].blocks.len() ==> #[trigger] ts[i].blocks[j].threshold
            + elapsed <= u128::MAX
}

/// One render tick on a token; also says whether any of its blocks was
/// transitioning.
fn advance_token_exec(t: &Token, elapsed: u128) -> (r: (Token, bool))
    requires
        forall|j: int|
            0 <= j < t@.blocks.len() ==> #[trigger] t@.blocks[j].threshold + elapsed
                <= u128::MAX,
    ensures
        r.0@ == advance_token(t@, elapsed as nat),
        r.1 == exists|j: int| 0 <= j < t@.blocks.len() && #[trigger] transitioning(t@.blocks[j]),
{
    let mut out: Vec<TokenBlock> = Vec::new();
    let mut any = false;
    let mut j: usize = 0;
    while j < t.blocks.len()
        invariant
            forall|j: int|
                0 <= j < t@.blocks.len() ==> #[trigger] t@.blocks[j].threshold + elapsed
                    <= u128::MAX,
            j <= t.blocks.len(),
            out.len() == j,
            forall|k: int|
                0 <= k < j ==> (#[trigger] out@[k])@ == advance_block(
                    t@.blocks[k],
                    elapsed as nat,
                ),
            any == exists|k: int| 0 <= k < j && #[trigger] transitioning(t@.blocks[k]),
        decreases t.blocks.len() - j,
    {
        assert(t@.blocks[j as int] == t.blocks@[j as int]@);
        assert(t@.blocks[j as int].threshold + elapsed <= u128::MAX);
        let (nb, moving) = advance_block_exec(&t.blocks[j], elapsed);
        out.push(nb);
        any = any || moving;
        j = j + 1;
    }
    let r = Token { format_string: copy_text(&t.format_string), blocks: out };
    assert(r@.blocks =~= advance_token(t@, elapsed as nat).blocks);
    (r, any)
}

/// A token with every threshold set to `timing`.
fn retime_token(t: &Token, timing: u128) -> (r: Token)
    ensures
        r@ == (TokenState {
            format: t@.format,
            blocks: t@.blocks.map_values(|b: BlockState| BlockState { threshold: timing as nat, ..b }),
        }),
{
    let mut out: Vec<TokenBlock> = Vec::new();
    let mut j: usize = 0;
    while j < t.blocks.len()
        invariant
            j <= t.blocks.len(),
            out.len() == j,
            forall|k: int|
                0 <= k < j ==> (#[trigger] out@[k])@ == (BlockState {
                    threshold: timing as nat,
                    ..t@.blocks[k]
                }),
        decreases t.blocks.len() - j,
    {
        let b = &t.blocks[j];
        out.push(
            TokenBlock {
                is_constant: b.is_constant,
                transition_progress: b.transition_progress,
                transition_timing: timing,
                size: b.size,
                curr_token: copy_text(&b.curr_token),
                new_token: copy_text(&b.new_token),
            },
        );
        j = j + 1;
    }
    let r = Token { format_string: copy_text(&t.format_string), blocks: out };
    assert(r@.blocks =~= t@.blocks.map_values(
        |b: BlockState| BlockState { threshold: timing as nat, ..b },
    ));
    r
}

/// The animated display: its tokens and the transition time given to every
/// block.
#[derive(Debug)]
pub struct AnimatedTime {
    pub format_tokens: Vec<Token>,
    pub timing: u128,
}

/// The format used when none is given: the time of day.
pub const DEFAULT_FORMAT: &'static str = "%X";

/// The transition time used when none is given, in milliseconds.
pub const DEFAULT_TIMING: u128 = 250;

impl AnimatedTime {
    /// The abstract tokens.
    pub open spec fn tokens(&self) -> Seq<TokenState> {
        self.format_tokens@.map_values(|t: Token| t@)
    }

    /// The configured transition time, in milliseconds.
    pub open spec fn timing_ms(&self) -> nat {
        self.timing as nat
    }

    /// The configured transition time, in milliseconds.
    pub fn timing(&self) -> (r: u128)
        ensures
            r as nat == self.timing_ms(),
    {
        self.timing
    }

    /// A display of the time of day, with the default transition time,
    /// configured at the current local time.
    pub fn new() -> (r: Self)
        ensures
            r.timing_ms() == DEFAULT_TIMING,
            exists|now: WallTime| is_clock_reading(now) && r.tokens() == configured(DEFAULT_FORMAT@, DEFAULT_TIMING as nat, now),
    {
        Self { format_tokens: Vec::new(), timing: DEFAULT_TIMING }.set_format(DEFAULT_FORMAT)
    }

    /// Sets the transition time of the display and of every block.
    pub fn set_timing(self, timing: u128) -> (r: Self)
        ensures
            r.timing_ms() == timing,
            r.tokens() == retimed(self.tokens(), timing as nat),
    {
        let mut out: Vec<Token> = Vec::new();
        let mut i: usize = 0;
        while i < self.format_tokens.len()
            invariant
                i <= self.format_tokens.len(),
                out.len() == i,
                forall|k: int|
                    0 <= k < i ==> (#[trigger] out@[k])@ == retimed(self.tokens(), timing as nat)[k],
            decreases self.format_tokens.len() - i,
        {
            out.push(retime_token(&self.format_tokens[i], timing));
            i = i + 1;
        }
        let r = Self { format_tokens: out, timing };
        assert(r.tokens() =~= retimed(self.tokens(), timing as nat));
        r
    }

    /// Replaces the tokens with those of `format_string`, sampled at `now`
    /// and shown without a transition.
    pub fn set_format_at(self, format_string: &str, now: WallTime) -> (r: Self)
        ensures
            r.timing_ms() == self.timing_ms(),
            r.tokens() == configured(format_string@, self.timing_ms(), now),
    {
        let fmt = crate::text::chars_of(format_string);
        let tokens = configure(&fmt, self.timing, now);
        Self { format_tokens: tokens, timing: self.timing }
    }

    /// Replaces the tokens with those of `format_string`, sampled at the
    /// current local time and shown without a transition.
    pub fn set_format(self, format_string: &str) -> (r: Self)
        ensures
            r.timing_ms() == self.timing_ms(),
            exists|now: WallTime| is_clock_reading(now) && r.tokens() == configured(format_string@, self.timing_ms(), now),
    {
        let now = local_now();
        self.set_format_at(format_string, now)
    }

    /// Samples the instant `now` into every block's target.
    pub fn tick_logic_at(&mut self, now: WallTime)
        ensures
            final(self).timing_ms() == old(self).timing_ms(),
            final(self).tokens() == sample_all(old(self).tokens(), now),
    {
        let mut out: Vec<Token> = Vec::new();
        let mut i: usize = 0;
        while i < self.format_tokens.len()
            invariant
                i <= self.format_tokens.len(),
                out.len() == i,
                forall|k: int|
                    0 <= k < i ==> (#[trigger] out@[k])@ == sample_token(self.tokens()[k], now),
            decreases self.format_tokens.len() - i,
        {
            out.push(sample_token_at(&self.format_tokens[i], now));
            i = i + 1;
        }
        assert(out@.map_values(|t: Token| t@) =~= sample_all(self.tokens(), now));
        self.format_tokens = out;
    }

    /// Samples the current local time into every block's target.
    pub fn tick_logic(&mut self)
        ensures
            final(self).timing_ms() == old(self).timing_ms(),
            exists|now: WallTime| is_clock_reading(now) && final(self).tokens() == sample_all(old(self).tokens(), now),
    {
        let now = local_now();
        self.tick_logic_at(now);
    }

    /// One render tick of `duration` milliseconds: each non-constant block
    /// past its threshold commits to its target, and each other block whose
    /// target differs from its value advances by `duration`. Returns whether
    /// any block was still transitioning.
    pub fn tick_render(&mut self, duration: u128) -> (r: bool)
        requires
            room_for(old(self).tokens(), duration as nat),
        ensures
            final(self).timing_ms() == old(self).timing_ms(),
            final(self).tokens() == advance_all(old(self).tokens(), duration as nat),
            r == any_transitioning(old(self).tokens()),
            no_phantom(old(self).tokens()) ==> no_phantom(final(self).tokens()),
            forall|i: int, j: int|
                0 <= i < old(self).tokens().len() && 0 <= j < old(self).tokens()[i].blocks.len()
                    ==> {
                    let b = #[trigger] old(self).tokens()[i].blocks[j];
                    let n = final(self).tokens()[i].blocks[j];
                    &&& !b.is_constant && b.progress > b.threshold ==> n == (BlockState {
                        progress: 0,
                        current: b.target,
                        ..b
                    })
                    &&& transitioning(b) ==> n == (BlockState {
                        progress: b.progress + duration as nat,
                        ..b
                    })
                    &&& !b.is_constant && b.progress == 0 && b.current == b.target ==> n == b
                },
    {
        let ghost ts = self.tokens();
        let mut out: Vec<Token> = Vec::new();
        let mut any = false;
        let mut i: usize = 0;
        while i < self.format_tokens.len()
            invariant
                ts == self.tokens(),
                room_for(ts, duration as nat),
                i <= self.format_tokens.len(),
                out.len() == i,
                forall|k: int|
                    0 <= k < i ==> (#[trigger] out@[k])@ == advance_token(ts[k], duration as nat),
                any == exists|k: int, j: int|
                    0 <= k < i && 0 <= j < ts[k].blocks.len() && #[trigger] transitioning(
                        ts[k].blocks[j],
                    ),
            decreases self.format_tokens.len() - i,
        {
            assert(ts[i as int] == self.format_tokens@[i as int]@);
            assert forall|j: int| 0 <= j < ts[i as int].blocks.len() implies #[trigger] ts[i as int].blocks[j].threshold
                + duration <= u128::MAX by {}
            let (nt, moving) = advance_token_exec(&self.format_tokens[i], duration);
            out.push(nt);
            any = any || moving;
            i = i + 1;
        }
        assert(out@.map_values(|t: Token| t@) =~= advance_all(ts, duration as nat));
        self.format_tokens = out;
        proof {
            if no_phantom(ts) {
                lemma_advance_no_phantom(ts, duration as nat);
            }
        }
        any
    }

    /// Whether any non-constant block shows something other than its
    /// target.
    pub fn has_pending(&self) -> (r: bool)
        ensures
            r == any_pending(self.tokens()),
    {
        let ghost ts = self.tokens();
        let mut i: usize = 0;
        while i < self.format_tokens.len()
            invariant
                ts == self.tokens(),
                i <= self.format_tokens.len(),
                forall|k: int, j: int|
                    0 <= k < i && 0 <= j < ts[k].blocks.len() ==> !#[trigger] pending(ts[k].blocks[j]),
            decreases self.format_tokens.len() - i,
        {
            let t = &self.format_tokens[i];
            assert(ts[i as int] == t@);
            let mut j: usize = 0;
            while j < t.blocks.len()
                invariant
                    ts == self.tokens(),
                    ts[i as int] == t@,
                    i < self.format_tokens.len(),
                    j <= t.blocks.len(),
                    forall|k: int, j: int|
                        0 <= k < i && 0 <= j < ts[k].blocks.len() ==> !#[trigger] pending(ts[k].blocks[j]),
                    forall|m: int| 0 <= m < j ==> !#[trigger] pending(ts[i as int].blocks[m]),
                decreases t.blocks.len() - j,
            {
                let b = &t.blocks[j];
                assert(ts[i as int].blocks[j as int] == b@);
                if !b.is_constant && !same_text(&b.new_token, &b.curr_token) {
                    assert(pending(ts[i as int].blocks[j as int]));
                    return true;
                }
                j = j + 1;
            }
            i = i + 1;
        }
        false
    }
}


// ---------------------------------------------------------------------------
// Laws
// ---------------------------------------------------------------------------

/// No block carries transition progress while it shows its target.
pub open spec fn no_phantom(ts: Seq<TokenState>) -> bool {
    forall|i: int, j: int|
        0 <= i < ts.len() && 0 <= j < ts[i].blocks.len() && #[trigger] ts[i].blocks[j].progress
            != 0 ==> ts[i].blocks[j].current != ts[i].blocks[j].target
}

/// A freshly configured display has no progress anywhere, so no phantom
/// animation.
pub proof fn lemma_configured_no_phantom(fmt: Seq<char>, timing: nat, now: WallTime)
    ensures
        no_phantom(configured(fmt, timing, now)),
        forall|i: int, j: int|
            0 <= i < configured(fmt, timing, now).len() && 0 <= j < configured(
                fmt,
                timing,
                now,
            )[i].blocks.len() ==> #[trigger] configured(fmt, timing, now)[i].blocks[j].progress
                == 0,
{
}

/// A render tick never leaves progress on a block that shows its target.
pub proof fn lemma_advance_no_phantom(ts: Seq<TokenState>, elapsed: nat)
    requires
        no_phantom(ts),
    ensures
        no_phantom(advance_all(ts, elapsed)),
{
    let r = advance_all(ts, elapsed);
    assert forall|i: int, j: int|
        0 <= i < r.len() && 0 <= j < r[i].blocks.len() && #[trigger] r[i].blocks[j].progress
            != 0 implies r[i].blocks[j].current != r[i].blocks[j].target by {
        assert(r[i].blocks[j] == advance_block(ts[i].blocks[j], elapsed));
    }
}

/// A logic tick leaves no phantom animation, as long as no block in the
/// middle of a transition is sampled back to the value it shows.
pub proof fn lemma_sample_no_phantom(ts: Seq<TokenState>, now: WallTime)
    requires
        no_phantom(ts),
        forall|i: int, j: int|
            0 <= i < ts.len() && 0 <= j < ts[i].blocks.len() && #[trigger] ts[i].blocks[j].progress
                != 0 ==> sample_all(ts, now)[i].blocks[j].target != ts[i].blocks[j].current,
    ensures
        no_phantom(sample_all(ts, now)),
{
    let r = sample_all(ts, now);
    assert forall|i: int, j: int|
        0 <= i < r.len() && 0 <= j < r[i].blocks.len() && #[trigger] r[i].blocks[j].progress
            != 0 implies r[i].blocks[j].current != r[i].blocks[j].target by {
        assert(r[i].blocks[j].progress == ts[i].blocks[j].progress);
    }
}

/// Configuring the same format specification twice gives the same block
/// partition, whatever instants the two configurations sampled.
pub proof fn lemma_partition_deterministic(
    fmt: Seq<char>,
    timing: nat,
    first: WallTime,
    second: WallTime,
)
    ensures
        partition(configured(fmt, timing, first)) == partition(configured(fmt, timing, second)),
{
    let a = configured(fmt, timing, first);
    let b = configured(fmt, timing, second);
    assert forall|i: int| 0 <= i < a.len() implies #[trigger] partition(a)[i] == partition(b)[i] by {
        assert(partition(a)[i].1 =~= partition(b)[i].1);
    }
    assert(partition(a) =~= partition(b));
}

/// The sum of a sequence of durations.
pub open spec fn total(es: Seq<nat>) -> nat
    decreases es.len(),
{
    if es.len() == 0 {
        0
    } else {
        total(es.drop_last()) + es.last()
    }
}

/// A block after a sequence of render ticks.
pub open spec fn run_block(b: BlockState, es: Seq<nat>) -> BlockState
    decreases es.len(),
{
    if es.len() == 0 {
        b
    } else {
        advance_block(run_block(b, es.drop_last()), es.last())
    }
}

proof fn lemma_total_prefix_mono(es: Seq<nat>, n: int)
    requires
        0 <= n <= es.len(),
    ensures
        total(es.take(n)) <= total(es),
    decreases es.len() - n,
{
    if n < es.len() {
        lemma_total_prefix_mono(es, n + 1);
        assert(es.take(n + 1).drop_last() =~= es.take(n));
    }
    assert(es.take(es.len() as int) =~= es);
}

/// A block whose target stays fixed and differs from its value accumulates
/// every tick's duration without committing until its progress exceeds the
/// threshold; the very next tick, whatever its duration, commits it.
pub proof fn lemma_commit_after_threshold(b: BlockState, es: Seq<nat>, next: nat)
    requires
        !b.is_constant,
        b.current != b.target,
        b.progress == 0,
        es.len() >= 1,
        total(es.drop_last()) <= b.threshold,
        total(es) > b.threshold,
    ensures
        forall|n: int|
            0 <= n <= es.len() ==> #[trigger] run_block(b, es.take(n)) == (BlockState {
                progress: total(es.take(n)),
                ..b
            }),
        advance_block(run_block(b, es), next) == (BlockState {
            progress: 0,
            current: b.target,
            ..b
        }),
{
    assert forall|n: int| 0 <= n <= es.len() implies #[trigger] run_block(b, es.take(n)) == (
    BlockState { progress: total(es.take(n)), ..b }) by {
        lemma_run_prefix(b, es, n);
    }
    assert(es.take(es.len() as int) =~= es);
}

proof fn lemma_run_prefix(b: BlockState, es: Seq<nat>, n: int)
    requires
        !b.is_constant,
        b.current != b.target,
        b.progress == 0,
        es.len() >= 1,
        total(es.drop_last()) <= b.threshold,
        0 <= n <= es.len(),
    ensures
        run_block(b, es.take(n)) == (BlockState { progress: total(es.take(n)), ..b }),
    decreases n,
{
    if n == 0 {
        assert(es.take(0) =~= Seq::<nat>::empty());
    } else {
        lemma_run_prefix(b, es, n - 1);
        assert(es.take(n).drop_last() =~= es.take(n - 1));
        let prev = es.drop_last();
        assert(es.take(n - 1) =~= prev.take(n - 1));
        lemma_total_prefix_mono(prev, n - 1);
    }
}

/// The concatenation of a sequence of texts.
pub open spec fn concat_texts(ss: Seq<Seq<char>>) -> Seq<char>
    decreases ss.len(),
{
    if ss.len() == 0 {
        Seq::empty()
    } else {
        concat_texts(ss.drop_last()) + ss.last()
    }
}

/// The text a token shows: its blocks' values, in order.
pub open spec fn token_display(t: TokenState) -> Seq<char> {
    concat_texts(t.blocks.map_values(|b: BlockState| b.current))
}

/// The text the whole display shows.
pub open spec fn display(ts: Seq<TokenState>) -> Seq<char> {
    concat_texts(ts.map_values(|t: TokenState| token_display(t)))
}

proof fn lemma_pieces_concat(s: Seq<char>, bs: Seq<BlockState>, n: int)
    requires
        0 <= n <= bs.len(),
    ensures
        concat_texts(Seq::new(n as nat, |j: int| piece(s, bs, j))) == s.subrange(
            0,
            min_int(width(bs.take(n)) as int, s.len() as int),
        ),
    decreases n,
{
    if n == 0 {
        assert(bs.take(0) =~= Seq::<BlockState>::empty());
        assert(s.subrange(0, 0) =~= Seq::<char>::empty());
    } else {
        lemma_pieces_concat(s, bs, n - 1);
        lemma_width_step(bs, n - 1);
        assert(Seq::new(n as nat, |j: int| piece(s, bs, j)).drop_last() =~= Seq::new(
            (n - 1) as nat,
            |j: int| piece(s, bs, j),
        ));
        let w = width(bs.take(n - 1)) as int;
        assert(s.subrange(0, min_int(w, s.len() as int)) + piece(s, bs, n - 1) =~= s.subrange(
            0,
            min_int(w + bs[n - 1].size, s.len() as int),
        ));
    }
}

/// A freshly configured token shows exactly its fragment's rendering at the
/// sampled instant, when that rendering fits the token's blocks.
pub proof fn lemma_token_round_trip(f: Seq<char>, timing: nat, now: WallTime)
    requires
        rendered(f, now).len() <= width(blank_token(f, timing).blocks),
    ensures
        token_display(settle_token(sample_token(blank_token(f, timing), now))) == rendered(f, now),
{
    let bs = blank_token(f, timing).blocks;
    let s = rendered(f, now);
    let t = settle_token(sample_token(blank_token(f, timing), now));
    lemma_pieces_concat(s, bs, bs.len() as int);
    assert(bs.take(bs.len() as int) =~= bs);
    assert(t.blocks.map_values(|b: BlockState| b.current) =~= Seq::new(
        bs.len(),
        |j: int| piece(s, bs, j),
    ));
    assert(s.subrange(0, s.len() as int) =~= s);
}

/// A freshly configured display shows the renderings of its fragments at
/// the sampled instant, one after another, when each rendering fits its
/// token's blocks.
pub proof fn lemma_display_round_trip(fmt: Seq<char>, timing: nat, now: WallTime)
    requires
        forall|k: int|
            0 <= k < fragments(fmt).len() ==> #[trigger] rendered(fragments(fmt)[k], now).len()
                <= width(blank_token(fragments(fmt)[k], timing).blocks),
    ensures
        display(configured(fmt, timing, now)) == concat_texts(
            fragments(fmt).map_values(|f: Seq<char>| rendered(f, now)),
        ),
{
    let ts = configured(fmt, timing, now);
    let fs = fragments(fmt);
    assert forall|k: int| 0 <= k < fs.len() implies #[trigger] token_display(ts[k]) == rendered(
        fs[k],
        now,
    ) by {
        lemma_token_round_trip(fs[k], timing, now);
    }
    assert(ts.map_values(|t: TokenState| token_display(t)) =~= fs.map_values(
        |f: Seq<char>| rendered(f, now),
    ));
}


/// What scanning `rest` leaves unfinished at the end, given the fragment
/// `pending` accumulated so far.
pub open spec fn unfinished(pending: Seq<char>, rest: Seq<char>) -> Seq<char>
    decreases rest.len(),
{
    if rest.len() == 0 {
        pending
    } else {
        let tok = pending.push(rest[0]);
        if closes(tok) {
            unfinished(Seq::empty(), rest.drop_first())
        } else {
            unfinished(tok, rest.drop_first())
        }
    }
}

proof fn lemma_concat_prepend(a: Seq<char>, ss: Seq<Seq<char>>)
    ensures
        concat_texts(seq![a] + ss) == a + concat_texts(ss),
    decreases ss.len(),
{
    let whole = seq![a] + ss;
    if ss.len() == 0 {
        assert(whole.drop_last() =~= Seq::<Seq<char>>::empty());
        assert(whole.last() == a);
        assert(concat_texts(whole) == concat_texts(whole.drop_last()) + whole.last());
        assert(concat_texts(Seq::<Seq<char>>::empty()) == Seq::<char>::empty());
        assert(Seq::<char>::empty() + a =~= a);
        assert(a + Seq::<char>::empty() =~= a);
    } else {
        lemma_concat_prepend(a, ss.drop_last());
        assert(whole.drop_last() =~= seq![a] + ss.drop_last());
        assert(whole.last() == ss.last());
        assert(concat_texts(whole) == concat_texts(whole.drop_last()) + whole.last());
        assert(a + concat_texts(ss.drop_last()) + ss.last() =~= a + (concat_texts(ss.drop_last())
            + ss.last()));
    }
}

proof fn lemma_split_cover(pending: Seq<char>, rest: Seq<char>)
    ensures
        concat_texts(split_from(pending, rest)) + unfinished(pending, rest) == pending + rest,
    decreases rest.len(),
{
    if rest.len() == 0 {
        assert(pending + rest =~= pending);
    } else {
        let tok = pending.push(rest[0]);
        let tail = rest.drop_first();
        assert(pending + rest =~= tok + tail);
        if closes(tok) {
            lemma_split_cover(Seq::empty(), tail);
            lemma_concat_prepend(tok, split_from(Seq::empty(), tail));
            assert(Seq::<char>::empty() + tail =~= tail);
            assert(tok + concat_texts(split_from(Seq::empty(), tail)) + unfinished(Seq::empty(), tail)
                =~= tok + (concat_texts(split_from(Seq::empty(), tail)) + unfinished(
                Seq::empty(),
                tail,
            )));
        } else {
            lemma_split_cover(tok, tail);
        }
    }
}

/// The tokens of a format specification, one after another, spell the whole
/// specification but for an unfinished directive at its end; a
/// specification that ends on a complete token is covered exactly.
pub proof fn lemma_fragments_cover(fmt: Seq<char>)
    ensures
        concat_texts(fragments(fmt)) + unfinished(Seq::empty(), fmt) == fmt,
        unfinished(Seq::empty(), fmt).len() == 0 ==> concat_texts(fragments(fmt)) == fmt,
{
    lemma_split_cover(Seq::empty(), fmt);
    assert(Seq::<char>::empty() + fmt =~= fmt);
    if unfinished(Seq::empty(), fmt).len() == 0 {
        assert(concat_texts(fragments(fmt)) + unfinished(Seq::empty(), fmt) =~= concat_texts(
            fragments(fmt),
        ));
    }
}


/// The text the blocks of a token hold as targets, in order.
pub open spec fn token_targets(t: TokenState) -> Seq<char> {
    concat_texts(t.blocks.map_values(|b: BlockState| b.target))
}

/// The text the whole display holds as targets.
pub open spec fn targets(ts: Seq<TokenState>) -> Seq<char> {
    concat_texts(ts.map_values(|t: TokenState| token_targets(t)))
}

/// After a logic tick, the blocks' targets, in order, are the renderings of
/// the tokens' fragments at the sampled instant, one after another, when
/// each rendering fits its token's blocks: no character is lost or repeated.
pub proof fn lemma_sample_round_trip(ts: Seq<TokenState>, now: WallTime)
    requires
        forall|k: int|
            0 <= k < ts.len() ==> #[trigger] rendered(ts[k].format, now).len() <= width(
                ts[k].blocks,
            ),
    ensures
        targets(sample_all(ts, now)) == concat_texts(
            ts.map_values(|t: TokenState| rendered(t.format, now)),
        ),
{
    let r = sample_all(ts, now);
    assert forall|k: int| 0 <= k < ts.len() implies #[trigger] token_targets(r[k]) == rendered(
        ts[k].format,
        now,
    ) by {
        let bs = ts[k].blocks;
        let s = rendered(ts[k].format, now);
        assert(rendered(ts[k].format, now).len() <= width(ts[k].blocks));
        lemma_pieces_concat(s, bs, bs.len() as int);
        assert(bs.take(bs.len() as int) =~= bs);
        assert(r[k].blocks.map_values(|b: BlockState| b.target) =~= Seq::new(
            bs.len(),
            |j: int| piece(s, bs, j),
        ));
        assert(s.subrange(0, s.len() as int) =~= s);
    }
    assert(r.map_values(|t: TokenState| token_targets(t)) =~= ts.map_values(
        |t: TokenState| rendered(t.format, now),
    ));
}

} // verus!
