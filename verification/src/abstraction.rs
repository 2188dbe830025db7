//! Action abstraction: from bet-size tokens and a game-state summary to
//! bounded, labelled bets, and the coarse bucketing of hole cards.

use crate::fixed::{append_rounded, clamp_of, max_of, min_of, two_decimal_text, Fixed, SCALE};
use crate::numeral::{
    is_decimal, is_negative, is_unbounded, lemma_mantissa_value_nonnegative,
    lemma_only_zero_reads_as_zero, lemma_words_are_no_decimals, mantissa_value,
    not_a_number_text, parsed_reading, unbounded_text, unsigned_part, Reading,
};
use crate::text::{
    chars_of, eq_ignoring_ascii_case, lemma_lex_le_reflexive, lemma_lex_le_total,
    lemma_lex_le_transitive, lex_le, lex_le_chars, same_ignoring_ascii_case, starts_with, tail_of,
};
use vstd::prelude::*;
use vstd::string::*;

verus! {

/// One proposed action: a stable label and a bet size in big blinds.
#[derive(Clone, Debug, PartialEq)]
pub struct ActionSpec {
    pub label: String,
    pub amount: Fixed,
}

impl View for ActionSpec {
    type V = (Seq<char>, int);

    open spec fn view(&self) -> (Seq<char>, int) {
        (self.label@, self.amount@)
    }
}

/// The blinds of the hand; only the big blind is read.
#[derive(Clone, Debug)]
pub struct BlindSummary {
    pub big: Fixed,
}

impl Default for BlindSummary {
    fn default() -> (r: BlindSummary)
        ensures
            r.big@ == 0,
    {
        BlindSummary { big: Fixed::zero() }
    }
}

/// What the solver reads of the game state: the pot and the big blind in
/// chips, and the street, which is carried along and never interpreted.
#[derive(Clone, Debug)]
pub struct GameStateSummary {
    pub pot: Fixed,
    pub street: String,
    pub blinds: BlindSummary,
}

impl Default for GameStateSummary {
    /// The summary that stands for a missing or unreadable game state.
    fn default() -> (r: GameStateSummary)
        ensures
            r.pot@ == 0,
            r.street@ == Seq::<char>::empty(),
            r.blinds.big@ == 0,
    {
        GameStateSummary { pot: Fixed::zero(), street: String::new(), blinds: BlindSummary::default() }
    }
}

/// The largest bet there is: the effective stack, taken as at least one big blind.
pub open spec fn stack_cap(effective_stack: int) -> int {
    max_of(effective_stack, SCALE as int)
}

/// The pot in big blinds, cut to millionths: a big blind below one chip
/// counts as one chip, and the result is at least one big blind.
pub open spec fn pot_in_big_blinds(pot: int, big_blind: int) -> int {
    max_of(pot * SCALE / max_of(big_blind, SCALE as int), SCALE as int)
}

impl GameStateSummary {
    pub fn pot_in_bb(&self) -> (r: Fixed)
        ensures
            r@ == pot_in_big_blinds(self.pot@, self.blinds.big@),
    {
        let one = Fixed::one();
        let big = self.blinds.big.max(one);
        if self.pot.micros <= 0 {
            assert(self.pot@ * SCALE / big@ <= 0) by (nonlinear_arith)
                requires
                    self.pot@ <= 0,
                    big@ > 0,
            ;
            return one;
        }
        let numerator: i128 = self.pot.micros as i128 * 1_000_000;
        let quotient: i128 = numerator / (big.micros as i128);
        assert(quotient <= self.pot@) by (nonlinear_arith)
            requires
                quotient == (self.pot@ * 1_000_000) / big@,
                big@ >= 1_000_000,
                self.pot@ > 0,
        ;
        Fixed::limited(quotient, one, Fixed { micros: i64::MAX })
    }
}

pub open spec fn all_in_text() -> Seq<char> {
    seq!['a', 'l', 'l', '-', 'i', 'n']
}

pub open spec fn pot_prefix() -> Seq<char> {
    seq!['p', 'o', 't', ':']
}

pub open spec fn stack_prefix() -> Seq<char> {
    seq!['s', 't', 'a', 'c', 'k', ':']
}

pub open spec fn abs_prefix() -> Seq<char> {
    seq!['a', 'b', 's', ':']
}

/// What the number of a token is read as: [`parsed_reading`], and zero for
/// a text that is read as nothing.
pub open spec fn reading_or_zero(text: Seq<char>) -> Reading {
    match parsed_reading(text) {
        Some(reading) => reading,
        None => Reading::Finite { value: Fixed { micros: 0 }, beyond: false },
    }
}

/// The count of millionths that stands for the number of a token.
pub open spec fn number_or_zero(text: Seq<char>) -> int {
    reading_or_zero(text).micros()
}

/// The label of a `pot:` token: the fraction, taken as at least 0.01.
pub open spec fn pot_label(number: Reading) -> Seq<char> {
    seq!['p', 'o', 't', '-'] + if number.is_unbounded_above() {
        unbounded_text()
    } else {
        two_decimal_text(
            max_of(number.micros(), SCALE / 100),
            number.writes_more() && number.micros() >= SCALE / 100,
        )
    }
}

/// The label of a `stack:` token: the fraction, limited to `[0, 1]`;
/// not-a-number passes through the limits and is written as it is.
pub open spec fn stack_label(number: Reading) -> Seq<char> {
    seq!['s', 't', 'a', 'c', 'k', '-'] + if number == Reading::NotANumber {
        not_a_number_text()
    } else {
        two_decimal_text(
            clamp_of(number.micros(), 0, SCALE as int),
            number.writes_more() && 0 <= number.micros() < SCALE,
        )
    }
}

/// The label of an `abs:` token or a bare number: the value, taken as not
/// negative.
pub open spec fn abs_label(number: Reading) -> Seq<char> {
    seq!['a', 'b', 's', '-'] + if number.is_unbounded_above() {
        unbounded_text()
    } else {
        two_decimal_text(max_of(number.micros(), 0), number.writes_more() && number.micros() > 0)
    }
}

/// What one bet-size token stands for, as a label and an amount in
/// millionths of a big blind, or `None` for a token that is dropped.
///
/// * `all-in`, in any mix of upper and lower case, is the whole stack.
/// * `pot:<f>` is the fraction `f` of the pot, `f` taken as at least 0.01 and
///   the bet limited to between half a big blind and the stack.
/// * `stack:<f>` is the fraction `f` of the stack, `f` limited to `[0, 1]`
///   and the bet taken as at least half a big blind.
/// * `abs:<v>` is `v` big blinds, not negative and at most the stack.
/// * A bare number above zero is read as `abs:` with that value.
///
/// A number is a decimal numeral, `inf` or `infinity` for a number beyond
/// every bound, or `nan`; after a prefix, any other text counts as zero. An
/// unbounded number above zero is held to the same limits as any other, so
/// it stands for the largest bet there is. Not-a-number yields to every
/// limit, so it counts as zero; it is dropped when bare.
///
/// A label ends in the number that the bet was made from: `inf`, `NaN`, or
/// the number rounded to hundredths. The rounding is of the decimal value
/// that the numeral writes, with a value exactly halfway between two
/// hundredths going to the even one: `12.345` gives `12.34` and `12.3450001`
/// gives `12.35`. Rounding a binary approximation of the numeral instead
/// can differ on such halves (it gives `12.35`, and `0.01` for `0.005`,
/// which is `0.00` here), and agrees wherever the half is a binary fraction,
/// as `0.125` is.
pub open spec fn token_action(token: Seq<char>, pot_bb: int, cap: int) -> Option<(Seq<char>, int)> {
    if same_ignoring_ascii_case(token, all_in_text()) {
        Some((all_in_text(), cap))
    } else if pot_prefix().is_prefix_of(token) {
        let number = reading_or_zero(token.skip(4));
        let f = max_of(number.micros(), SCALE / 100);
        Some((pot_label(number), clamp_of(f * pot_bb / (SCALE as int), SCALE / 2, cap)))
    } else if stack_prefix().is_prefix_of(token) {
        let number = reading_or_zero(token.skip(6));
        let f = clamp_of(number.micros(), 0, SCALE as int);
        Some((stack_label(number), max_of(f * cap / (SCALE as int), SCALE / 2)))
    } else if abs_prefix().is_prefix_of(token) {
        let number = reading_or_zero(token.skip(4));
        Some((abs_label(number), min_of(max_of(number.micros(), 0), cap)))
    } else {
        match parsed_reading(token) {
            Some(number) => if number.micros() > 0 {
                Some((abs_label(number), min_of(number.micros(), cap)))
            } else {
                None
            },
            None => None,
        }
    }
}

/// A bet that a token stands for is never negative and never above the
/// stack cap. Only an `abs:` token whose number is not above zero stands for
/// a bet of nothing; a number above zero is at least a millionth.
pub proof fn lemma_token_amount_bounded(token: Seq<char>, pot_bb: int, cap: int)
    requires
        pot_bb >= SCALE,
        cap >= SCALE,
        token_action(token, pot_bb, cap) is Some,
    ensures
        0 <= token_action(token, pot_bb, cap).unwrap().1 <= cap,
        token_action(token, pot_bb, cap).unwrap().1 == 0 ==> abs_prefix().is_prefix_of(token)
            && number_or_zero(token.skip(4)) <= 0,
{
    if same_ignoring_ascii_case(token, all_in_text()) {
    } else if pot_prefix().is_prefix_of(token) {
    } else if stack_prefix().is_prefix_of(token) {
        let f = clamp_of(number_or_zero(token.skip(6)), 0, SCALE as int);
        assert(f * cap / 1_000_000 <= cap) by (nonlinear_arith)
            requires
                0 <= f <= 1_000_000,
                cap >= 0,
        ;
    }
}

/// A bare number is kept exactly when it is above zero: a decimal numeral
/// with a digit other than zero and no minus sign, or an unbounded number
/// with no minus sign.
pub proof fn lemma_bare_number_is_kept(token: Seq<char>, pot_bb: int, cap: int)
    requires
        !same_ignoring_ascii_case(token, all_in_text()),
        !pot_prefix().is_prefix_of(token),
        !stack_prefix().is_prefix_of(token),
        !abs_prefix().is_prefix_of(token),
    ensures
        token_action(token, pot_bb, cap) is Some <==> !is_negative(token) && (is_unbounded(token)
            || (is_decimal(token) && mantissa_value(unsigned_part(token)) > 0)),
{
    if is_decimal(token) {
        lemma_only_zero_reads_as_zero(token);
        lemma_mantissa_value_nonnegative(token);
    }
    if is_unbounded(token) {
        lemma_words_are_no_decimals(token);
    }
}

/// An unbounded number above zero stands for the largest bet there is,
/// whatever the prefix before it.
pub proof fn lemma_unbounded_bet_is_the_cap(token: Seq<char>, pot_bb: int, cap: int)
    requires
        pot_bb >= SCALE,
        SCALE <= cap <= i64::MAX,
        !same_ignoring_ascii_case(token, all_in_text()),
        ({
            ||| pot_prefix().is_prefix_of(token) && reading_or_zero(
                token.skip(4),
            ).is_unbounded_above()
            ||| stack_prefix().is_prefix_of(token) && reading_or_zero(
                token.skip(6),
            ).is_unbounded_above()
            ||| abs_prefix().is_prefix_of(token) && reading_or_zero(
                token.skip(4),
            ).is_unbounded_above()
            ||| parsed_reading(token) == Some(Reading::Unbounded { negative: false })
        }),
    ensures
        token_action(token, pot_bb, cap) is Some,
        token_action(token, pot_bb, cap).unwrap().1 == cap,
{
    let most = i64::MAX as int;
    assert(most * pot_bb / 1_000_000 >= most) by (nonlinear_arith)
        requires
            most >= 0,
            pot_bb >= 1_000_000,
    ;
    assert(1_000_000 * cap / 1_000_000 == cap) by (nonlinear_arith);
}

fn number_after(text: &[char], prefix_len: usize) -> (r: Reading)
    requires
        prefix_len <= text.len(),
    ensures
        r == reading_or_zero(text@.skip(prefix_len as int)),
{
    match Reading::parse(tail_of(text, prefix_len)) {
        Some(reading) => reading,
        None => Reading::Finite { value: Fixed { micros: 0 }, beyond: false },
    }
}

/// Whether a reading is the unbounded number above zero.
fn unbounded_above(number: Reading) -> (is: bool)
    ensures
        is == number.is_unbounded_above(),
{
    match number {
        Reading::Unbounded { negative } => !negative,
        _ => false,
    }
}

fn not_a_number(number: Reading) -> (is: bool)
    ensures
        is == (number == Reading::NotANumber),
{
    match number {
        Reading::NotANumber => true,
        _ => false,
    }
}

/// The label of an `abs:` token or a bare number.
fn abs_label_of(number: Reading) -> (label: String)
    ensures
        label@ == abs_label(number),
{
    proof {
        reveal_strlit("abs-");
        reveal_strlit("inf");
    }
    let mut label = String::from_str("abs-");
    assert(label@ =~= seq!['a', 'b', 's', '-']);
    if unbounded_above(number) {
        label.append("inf");
        assert(label@ =~= abs_label(number));
    } else {
        append_rounded(
            &mut label,
            number.value().max(Fixed::zero()),
            number.beyond() && number.value().micros > 0,
        );
    }
    label
}

fn parse_action_token(token: &str, pot_bb: Fixed, stack_cap: Fixed) -> (r: Option<ActionSpec>)
    requires
        pot_bb@ >= SCALE,
        stack_cap@ >= SCALE,
    ensures
        r is Some <==> token_action(token@, pot_bb@, stack_cap@) is Some,
        r is Some ==> r->0@ == token_action(token@, pot_bb@, stack_cap@)->0,
{
    let chars = chars_of(token);
    let text = chars.as_slice();
    proof {
        reveal_strlit("all-in");
        reveal_strlit("pot:");
        reveal_strlit("stack:");
        reveal_strlit("abs:");
        reveal_strlit("pot-");
        reveal_strlit("stack-");
        reveal_strlit("abs-");
        reveal_strlit("inf");
        reveal_strlit("NaN");
    }
    let all_in = chars_of("all-in");
    assert(all_in@ =~= all_in_text());
    if eq_ignoring_ascii_case(text, all_in.as_slice()) {
        let label = String::from_str("all-in");
        assert(label@ =~= all_in_text());
        return Some(ActionSpec { label, amount: stack_cap });
    }
    let pot = chars_of("pot:");
    assert(pot@ =~= pot_prefix());
    if starts_with(text, pot.as_slice()) {
        let number = number_after(text, 4);
        let fraction = number.value().max(Fixed { micros: 10_000 });
        let mut label = String::from_str("pot-");
        assert(label@ =~= seq!['p', 'o', 't', '-']);
        if unbounded_above(number) {
            label.append("inf");
            assert(label@ =~= pot_label(number));
        } else {
            append_rounded(
                &mut label,
                fraction,
                number.beyond() && number.value().micros >= 10_000,
            );
        }
        let amount = Fixed::limited(fraction.scaled_product(pot_bb), Fixed::half(), stack_cap);
        return Some(ActionSpec { label, amount });
    }
    let stack = chars_of("stack:");
    assert(stack@ =~= stack_prefix());
    if starts_with(text, stack.as_slice()) {
        let number = number_after(text, 6);
        let fraction = number.value().clamp(Fixed::zero(), Fixed::one());
        let mut label = String::from_str("stack-");
        assert(label@ =~= seq!['s', 't', 'a', 'c', 'k', '-']);
        if not_a_number(number) {
            label.append("NaN");
            assert(label@ =~= stack_label(number));
        } else {
            append_rounded(
                &mut label,
                fraction,
                number.beyond() && 0 <= number.value().micros && number.value().micros < SCALE,
            );
        }
        let share: i128 = fraction.scaled_product(stack_cap);
        assert(share <= stack_cap@) by (nonlinear_arith)
            requires
                share == fraction@ * stack_cap@ / 1_000_000,
                0 <= fraction@ <= 1_000_000,
                stack_cap@ >= 0,
        ;
        let amount = Fixed::limited(share, Fixed::half(), Fixed { micros: i64::MAX });
        return Some(ActionSpec { label, amount });
    }
    let abs = chars_of("abs:");
    assert(abs@ =~= abs_prefix());
    if starts_with(text, abs.as_slice()) {
        let number = number_after(text, 4);
        let value = number.value().max(Fixed::zero());
        return Some(ActionSpec { label: abs_label_of(number), amount: value.min(stack_cap) });
    }
    match Reading::parse(text) {
        Some(number) => {
            if number.value().micros > 0 {
                Some(
                    ActionSpec {
                        label: abs_label_of(number),
                        amount: number.value().min(stack_cap),
                    },
                )
            } else {
                None
            }
        },
        None => None,
    }
}

/// The texts of a list of strings.
pub open spec fn texts(raw: Seq<String>) -> Seq<Seq<char>> {
    raw.map_values(|s: String| s@)
}

/// The labels and amounts of a list of action specs.
pub open spec fn spec_views(specs: Seq<ActionSpec>) -> Seq<(Seq<char>, int)> {
    specs.map_values(|a: ActionSpec| a@)
}

/// The actions that a list of tokens stands for: each token that
/// [`token_action`] keeps, in the order of the tokens. Equal labels may
/// occur more than once.
pub open spec fn token_actions(tokens: Seq<Seq<char>>, pot_bb: int, cap: int) -> Seq<(Seq<char>, int)>
    decreases tokens.len(),
{
    if tokens.len() == 0 {
        Seq::empty()
    } else {
        let before = token_actions(tokens.drop_last(), pot_bb, cap);
        match token_action(tokens.last(), pot_bb, cap) {
            Some(action) => before.push(action),
            None => before,
        }
    }
}

/// Turns raw bet-size tokens into bounded action specs for a game state and
/// an effective stack in big blinds.
pub fn parse_action_set(raw: &[String], summary: &GameStateSummary, effective_stack_bb: Fixed) -> (specs:
    Vec<ActionSpec>)
    ensures
        spec_views(specs@) == token_actions(
            texts(raw@),
            pot_in_big_blinds(summary.pot@, summary.blinds.big@),
            stack_cap(effective_stack_bb@),
        ),
        raw@.len() == 0 ==> specs@.len() == 0,
        specs@.len() <= raw@.len(),
{
    let pot_bb = summary.pot_in_bb();
    let cap = effective_stack_bb.max(Fixed::one());
    let mut specs: Vec<ActionSpec> = Vec::new();
    let mut i: usize = 0;
    while i < raw.len()
        invariant
            i <= raw.len(),
            pot_bb@ >= SCALE,
            cap@ >= SCALE,
            specs@.len() <= i,
            spec_views(specs@) == token_actions(texts(raw@).take(i as int), pot_bb@, cap@),
        decreases raw.len() - i,
    {
        let ghost before = specs@;
        let parsed = parse_action_token(raw[i].as_str(), pot_bb, cap);
        proof {
            let tokens = texts(raw@);
            assert(tokens.take(i + 1).drop_last() =~= tokens.take(i as int));
            assert(tokens.take(i + 1).last() == raw@[i as int]@);
        }
        match parsed {
            Some(action) => {
                specs.push(action);
                assert(spec_views(specs@) =~= spec_views(before).push(action@));
            },
            None => {},
        }
        i += 1;
    }
    assert(texts(raw@).take(raw@.len() as int) =~= texts(raw@));
    specs
}

pub open spec fn lex_min(a: Seq<char>, b: Seq<char>) -> Seq<char> {
    if lex_le(a, b) { a } else { b }
}

pub open spec fn lex_max(a: Seq<char>, b: Seq<char>) -> Seq<char> {
    if lex_le(a, b) { b } else { a }
}

/// The least and the second least of at least two codes in dictionary
/// order: the first two of the codes once sorted.
pub open spec fn two_least(codes: Seq<Seq<char>>) -> (Seq<char>, Seq<char>)
    decreases codes.len(),
{
    if codes.len() < 2 {
        (Seq::empty(), Seq::empty())
    } else if codes.len() == 2 {
        (lex_min(codes[0], codes[1]), lex_max(codes[0], codes[1]))
    } else {
        let before = two_least(codes.drop_last());
        let code = codes.last();
        if lex_le(before.0, code) {
            (before.0, lex_min(before.1, code))
        } else {
            (code, before.0)
        }
    }
}

/// The two least codes are what sorting puts first: they stand at two
/// different places among the codes, the first is at or before the second,
/// and the second is at or before every code but the first. The places are
/// returned.
pub proof fn lemma_two_least_lead(codes: Seq<Seq<char>>) -> (at: (int, int))
    requires
        codes.len() >= 2,
    ensures
        0 <= at.0 < codes.len(),
        0 <= at.1 < codes.len(),
        at.0 != at.1,
        codes[at.0] == two_least(codes).0,
        codes[at.1] == two_least(codes).1,
        lex_le(two_least(codes).0, two_least(codes).1),
        forall|k: int|
            0 <= k < codes.len() && k != at.0 ==> lex_le(two_least(codes).1, #[trigger] codes[k]),
    decreases codes.len(),
{
    if codes.len() == 2 {
        lemma_lex_le_total(codes[0], codes[1]);
        lemma_lex_le_reflexive(codes[0]);
        lemma_lex_le_reflexive(codes[1]);
        if lex_le(codes[0], codes[1]) {
            (0, 1)
        } else {
            (1, 0)
        }
    } else {
        let before = codes.drop_last();
        let last = codes.len() - 1;
        let found = lemma_two_least_lead(before);
        let least = two_least(before);
        let code = codes.last();
        assert forall|k: int| 0 <= k < last implies before[k] == codes[k] by {}
        lemma_lex_le_total(least.0, code);
        lemma_lex_le_total(least.1, code);
        lemma_lex_le_reflexive(code);
        lemma_lex_le_reflexive(least.0);
        if lex_le(least.0, code) {
            if lex_le(least.1, code) {
                found
            } else {
                assert forall|k: int| 0 <= k < codes.len() && k != found.0 implies lex_le(
                    code,
                    #[trigger] codes[k],
                ) by {
                    if k < last {
                        assert(lex_le(least.1, before[k]));
                        lemma_lex_le_transitive(code, least.1, codes[k]);
                    }
                }
                (found.0, last)
            }
        } else {
            assert forall|k: int| 0 <= k < codes.len() && k != last implies lex_le(
                least.0,
                #[trigger] codes[k],
            ) by {
                if k != found.0 {
                    assert(lex_le(least.1, before[k]));
                    lemma_lex_le_transitive(least.0, least.1, codes[k]);
                }
            }
            (last, found.0)
        }
    }
}

/// Whether every code ends in the character that the first code ends in.
pub open spec fn all_suited(codes: Seq<Seq<char>>) -> bool {
    forall|k: int|
        0 <= k < codes.len() ==> (#[trigger] codes[k]).len() > 0 && codes[k].last()
            == codes[0].last()
}

pub open spec fn unknown_bucket() -> Seq<char> {
    seq!['u', 'n', 'k', 'n', 'o', 'w', 'n']
}

pub open spec fn pair_bucket(rank: char) -> Seq<char> {
    seq!['p', 'a', 'i', 'r', '-', rank]
}

/// Whether the codes can be bucketed: the first code is not empty, and at
/// most one code is.
pub open spec fn bucketable(codes: Seq<Seq<char>>) -> bool {
    codes.len() >= 2 ==> codes[0].len() > 0 && two_least(codes).1.len() > 0
}

/// The coarse key of a set of hole cards, each code a rank followed by a
/// suit. Fewer than two codes give `unknown`. Otherwise the two least codes
/// decide: with the same rank they give `pair-` and the rank, else the two
/// codes in order, and `s` where every code has the suit of the first code
/// given, `o` where not.
pub open spec fn hole_card_bucket(codes: Seq<Seq<char>>) -> Seq<char> {
    if codes.len() < 2 {
        unknown_bucket()
    } else {
        let least = two_least(codes);
        if least.0.len() > 0 && least.1.len() > 0 && least.0[0] == least.1[0] {
            pair_bucket(least.0[0])
        } else {
            least.0 + least.1 + seq![if all_suited(codes) { 's' } else { 'o' }]
        }
    }
}

pub fn bucket_hole_cards(card_codes: &[String]) -> (bucket: String)
    requires
        bucketable(texts(card_codes@)),
    ensures
        bucket@ == hole_card_bucket(texts(card_codes@)),
{
    let n: usize = card_codes.len();
    let ghost codes = texts(card_codes@);
    proof {
        reveal_strlit("unknown");
        reveal_strlit("pair-");
        reveal_strlit("s");
        reveal_strlit("o");
    }
    if n < 2 {
        let bucket = String::from_str("unknown");
        assert(bucket@ =~= unknown_bucket());
        return bucket;
    }
    let mut chars: Vec<Vec<char>> = Vec::new();
    let mut i: usize = 0;
    while i < n
        invariant
            i <= n,
            n == card_codes@.len(),
            codes == texts(card_codes@),
            chars@.len() == i,
            forall|j: int| 0 <= j < i ==> (#[trigger] chars@[j])@ == codes[j],
        decreases n - i,
    {
        chars.push(chars_of(card_codes[i].as_str()));
        i += 1;
    }
    let mut low: usize = 0;
    let mut high: usize = 1;
    if !lex_le_chars(chars[0].as_slice(), chars[1].as_slice()) {
        low = 1;
        high = 0;
    }
    assert(codes.take(2) =~= seq![codes[0], codes[1]]);
    let mut i: usize = 2;
    while i < n
        invariant
            2 <= i <= n,
            n == codes.len(),
            chars@.len() == n,
            forall|j: int| 0 <= j < n ==> (#[trigger] chars@[j])@ == codes[j],
            low < n,
            high < n,
            (codes[low as int], codes[high as int]) == two_least(codes.take(i as int)),
        decreases n - i,
    {
        proof {
            assert(codes.take(i + 1).drop_last() =~= codes.take(i as int));
            assert(codes.take(i + 1).last() == codes[i as int]);
        }
        if lex_le_chars(chars[low].as_slice(), chars[i].as_slice()) {
            if !lex_le_chars(chars[high].as_slice(), chars[i].as_slice()) {
                high = i;
            }
        } else {
            high = low;
            low = i;
        }
        i += 1;
    }
    assert(codes.take(n as int) =~= codes);
    let first = &chars[0];
    let suit: char = first[first.len() - 1];
    let mut suited: bool = true;
    let mut k: usize = 0;
    while k < n
        invariant
            k <= n,
            n == codes.len(),
            chars@.len() == n,
            forall|j: int| 0 <= j < n ==> (#[trigger] chars@[j])@ == codes[j],
            codes[0].len() > 0,
            suit == codes[0].last(),
            suited == (forall|j: int|
                0 <= j < k ==> (#[trigger] codes[j]).len() > 0 && codes[j].last() == suit),
        decreases n - k,
    {
        let code = &chars[k];
        if code.len() == 0 || code[code.len() - 1] != suit {
            suited = false;
        }
        k += 1;
    }
    assert(suited == all_suited(codes));
    let least = &chars[low];
    let second = &chars[high];
    if least.len() > 0 && least[0] == second[0] {
        let mut bucket = String::from_str("pair-");
        bucket.append(card_codes[low].as_str().substring_char(0, 1));
        assert(bucket@ =~= pair_bucket(codes[low as int][0]));
        bucket
    } else {
        let mut bucket = card_codes[low].clone();
        bucket.append(card_codes[high].as_str());
        bucket.append(if suited { "s" } else { "o" });
        assert(bucket@ =~= hole_card_bucket(codes));
        bucket
    }
}

} // verus!
