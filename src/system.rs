use vstd::prelude::*;

use crate::error::{ConversionError, ErrorView};
use crate::number::{
    integer_of, lemma_quotient_text_equal, parse_i32, quotient_text, quotient_to_text,
};
use crate::roman::{
    digit_of, evaluate, is_standard, lemma_standard_form, spelling, standard_form, RomanNumber,
    RomanNumeral,
};
use crate::table::{bind, entries_view, keys_unique, lookup, to_map};
use crate::text::{
    append, chars_of, find, first_match_from, lines, slice_of, split_lines, split_once,
    split_words, string_of, texts_view, trim, trimmed, words,
};

verus! {

/// A price: `credits` for `quantity` units of a material.
#[derive(Clone, Copy, Debug, PartialEq, Eq, Structural)]
pub struct Rate {
    pub credits: i32,
    pub quantity: u32,
}

/// The two tables of the knowledge base: tokens to digits, materials to prices.
pub type Tables = (Map<Seq<char>, RomanNumeral>, Map<Seq<char>, Rate>);

/// What separates the two sides of a statement or a question.
pub open spec fn separator() -> Seq<char> {
    seq![' ', 'i', 's', ' ']
}

/// The digits bound to those of `ws` that are bound, in order.
pub open spec fn known_digits(
    numerals: Map<Seq<char>, RomanNumeral>,
    ws: Seq<Seq<char>>,
) -> Seq<RomanNumeral>
    decreases ws.len(),
{
    if ws.len() == 0 {
        Seq::empty()
    } else if numerals.contains_key(ws.last()) {
        known_digits(numerals, ws.drop_last()).push(numerals[ws.last()])
    } else {
        known_digits(numerals, ws.drop_last())
    }
}

/// The first word of `s`, or nothing.
pub open spec fn first_word(s: Seq<char>) -> Seq<char> {
    if words(s).len() > 0 {
        words(s)[0]
    } else {
        Seq::empty()
    }
}

/// The text before the next separator, or all of it when there is none.
pub open spec fn up_to_separator(s: Seq<char>) -> Seq<char> {
    match split_once(s, separator()) {
        Some((before, _)) => before,
        None => s,
    }
}

/// What a statement does to the two tables, or why it is refused.
///
/// A price statement whose known tokens form no canonical numeral, in
/// particular one where no token is known and the quantity would be zero,
/// is refused with `InvalidNumeral` of the letters they spell (the empty
/// text when none is known); no price is stored then.
pub open spec fn define_model(
    numerals: Map<Seq<char>, RomanNumeral>,
    materials: Map<Seq<char>, Rate>,
    line: Seq<char>,
) -> Result<Tables, ErrorView> {
    match split_once(trim(line), separator()) {
        None => Err(ErrorView::MalformedStatement(line)),
        Some((left, after)) => {
            let right = up_to_separator(after);
            if right.len() == 1 {
                match digit_of(right[0]) {
                    Some(d) => Ok((numerals.insert(left, d), materials)),
                    None => Err(ErrorView::UnknownDigit(right)),
                }
            } else {
                let ws = words(left);
                if ws.len() == 0 {
                    Err(ErrorView::EmptyLeftSide)
                } else {
                    let ds = known_digits(numerals, ws.drop_last());
                    if !is_standard(ds) {
                        Err(ErrorView::InvalidNumeral(spelling(ds)))
                    } else {
                        match integer_of(first_word(right)) {
                            None => Err(ErrorView::InvalidAmount(first_word(right))),
                            Some(c) => Ok(
                                (
                                    numerals,
                                    materials.insert(
                                        ws.last(),
                                        Rate { credits: c, quantity: evaluate(ds) as u32 },
                                    ),
                                ),
                            ),
                        }
                    }
                }
            }
        },
    }
}

/// A line is a question when it starts with `how` or ends with `?`.
pub open spec fn is_question(line: Seq<char>) -> bool {
    (line.len() >= 3 && line.subrange(0, 3) == seq!['h', 'o', 'w']) || (line.len() > 0
        && line.last() == '?')
}

/// The tables after reading the statements `ls` in order from `start`, or
/// the first refusal.
pub open spec fn define_all(start: Tables, ls: Seq<Seq<char>>) -> Result<Tables, ErrorView>
    decreases ls.len(),
{
    if ls.len() == 0 {
        Ok(start)
    } else {
        match define_all(start, ls.drop_last()) {
            Ok(t) => define_model(t.0, t.1, ls.last()),
            Err(e) => Err(e),
        }
    }
}

/// The first of `ws` that no digit is bound to.
pub open spec fn first_unknown(
    numerals: Map<Seq<char>, RomanNumeral>,
    ws: Seq<Seq<char>>,
) -> Option<Seq<char>>
    decreases ws.len(),
{
    if ws.len() == 0 {
        None
    } else if !numerals.contains_key(ws[0]) {
        Some(ws[0])
    } else {
        first_unknown(numerals, ws.drop_first())
    }
}

/// The text without one question mark at its end.
pub open spec fn strip_question(s: Seq<char>) -> Seq<char> {
    if s.len() > 0 && s.last() == '?' {
        s.drop_last()
    } else {
        s
    }
}

/// The phrase that a question asks about, from the text after its separator.
pub open spec fn question_phrase(rest: Seq<char>) -> Seq<char> {
    trim(strip_question(trim(rest)))
}

pub open spec fn credits_suffix() -> Seq<char> {
    seq![' ', 'C', 'r', 'e', 'd', 'i', 't', 's']
}

/// The answer to a question, or why there is none.
pub open spec fn answer_model(
    numerals: Map<Seq<char>, RomanNumeral>,
    materials: Map<Seq<char>, Rate>,
    question: Seq<char>,
) -> Result<Seq<char>, ErrorView> {
    match split_once(question, separator()) {
        None => Err(ErrorView::UnknownQuestion),
        Some((_, rest)) => {
            let phrase = question_phrase(rest);
            let ws = words(phrase);
            let priced = ws.len() > 0 && materials.contains_key(ws.last());
            let nws = if priced {
                ws.drop_last()
            } else {
                ws
            };
            match first_unknown(numerals, nws) {
                Some(t) => Err(ErrorView::UnknownToken(t)),
                None => {
                    let ds = nws.map_values(|w: Seq<char>| numerals[w]);
                    if !is_standard(ds) {
                        Err(ErrorView::InvalidNumeral(spelling(ds)))
                    } else if priced {
                        let rate = materials[ws.last()];
                        Ok(
                            phrase + separator() + quotient_text(
                                evaluate(ds) * rate.credits,
                                rate.quantity as int,
                            ) + credits_suffix(),
                        )
                    } else {
                        Ok(phrase + separator() + quotient_text(evaluate(ds), 1))
                    }
                }
            }
        },
    }
}

/// The knowledge base: custom tokens bound to Roman digits, and materials
/// bound to prices.
#[derive(Debug)]
pub struct NumericSystem {
    numerals: Vec<(Vec<char>, RomanNumeral)>,
    materials: Vec<(Vec<char>, Rate)>,
}

impl NumericSystem {
    #[verifier::type_invariant]
    spec fn well_formed(self) -> bool {
        &&& keys_unique(entries_view(self.numerals@))
        &&& keys_unique(entries_view(self.materials@))
        &&& forall|i: int|
            0 <= i < self.materials@.len() ==> 1 <= (#[trigger] self.materials@[i]).1.quantity
                <= 3999
    }

    /// Each token and the digit it is bound to.
    pub closed spec fn numerals_view(&self) -> Map<Seq<char>, RomanNumeral> {
        to_map(entries_view(self.numerals@))
    }

    /// Each material and its price.
    pub closed spec fn materials_view(&self) -> Map<Seq<char>, Rate> {
        to_map(entries_view(self.materials@))
    }

    pub fn new() -> (r: NumericSystem)
        ensures
            r.numerals_view() == Map::<Seq<char>, RomanNumeral>::empty(),
            r.materials_view() == Map::<Seq<char>, Rate>::empty(),
    {
        NumericSystem { numerals: Vec::new(), materials: Vec::new() }
    }

    fn define(&mut self, line: &Vec<char>) -> (r: Result<(), ConversionError>)
        ensures
            match r {
                Ok(()) => define_model(
                    old(self).numerals_view(),
                    old(self).materials_view(),
                    line@,
                ) == Ok::<Tables, ErrorView>((final(self).numerals_view(), final(self).materials_view())),
                Err(e) => define_model(
                    old(self).numerals_view(),
                    old(self).materials_view(),
                    line@,
                ) == Err::<Tables, ErrorView>(e@) && final(self).numerals_view() == old(self).numerals_view()
                    && final(self).materials_view() == old(self).materials_view(),
            },
    {
        proof {
            use_type_invariant(&*self);
        }
        let l = trimmed(line);
        let sep: Vec<char> = vec![' ', 'i', 's', ' '];
        assert(sep@ == separator());
        let at = match find(&l, &sep) {
            Some(at) => at,
            None => {
                return Err(ConversionError::MalformedStatement(string_of(line.as_slice())));
            },
        };
        let n = l.len();
        assert(at + 4 <= n);
        let left = slice_of(&l, 0, at);
        let after = slice_of(&l, at + 4, n);
        assert(separator().len() == 4);
        assert(first_match_from(l@, separator(), 0) == Some(at as int));
        assert(split_once(trim(line@), separator()) == Some((left@, after@)));
        let right = match find(&after, &sep) {
            Some(end) => slice_of(&after, 0, end),
            None => after,
        };
        assert(right@ == up_to_separator(after@));
        if right.len() == 1 {
            match RomanNumeral::from_char(right[0]) {
                Ok(d) => {
                    let mut entries: Vec<(Vec<char>, RomanNumeral)> = Vec::new();
                    std::mem::swap(&mut self.numerals, &mut entries);
                    bind(&mut entries, left, d);
                    self.numerals = entries;
                    Ok(())
                },
                Err(_) => Err(ConversionError::UnknownDigit(string_of(right.as_slice()))),
            }
        } else {
            let ws = split_words(&left);
            if ws.len() == 0 {
                assert(words(left@).len() == 0);
                return Err(ConversionError::EmptyLeftSide);
            }
            let last = ws.len() - 1;
            let mut ds: Vec<RomanNumeral> = Vec::new();
            let mut i: usize = 0;
            while i < last
                invariant
                    last + 1 == ws@.len(),
                    i <= last,
                    keys_unique(entries_view(self.numerals@)),
                    ds@ == known_digits(
                        self.numerals_view(),
                        texts_view(ws@).subrange(0, i as int),
                    ),
                decreases last - i,
            {
                assert(texts_view(ws@).subrange(0, i + 1).drop_last() =~= texts_view(ws@).subrange(
                    0,
                    i as int,
                ));
                match lookup(&self.numerals, &ws[i]) {
                    Some(d) => ds.push(d),
                    None => {},
                }
                i = i + 1;
            }
            assert(texts_view(ws@).subrange(0, last as int) =~= texts_view(ws@).drop_last());
            let number = match RomanNumber::try_from(ds) {
                Ok(number) => number,
                Err(e) => {
                    return Err(e);
                },
            };
            let quantity = number.value();
            let amount_words = split_words(&right);
            let amount = if amount_words.len() > 0 {
                slice_of(&amount_words[0], 0, amount_words[0].len())
            } else {
                Vec::new()
            };
            assert(amount@ == first_word(right@)) by {
                if amount_words.len() > 0 {
                    assert(amount_words[0]@.subrange(0, amount_words[0]@.len() as int) =~= amount_words[0]@);
                    assert(texts_view(amount_words@)[0] == amount_words@[0]@);
                }
            }
            match parse_i32(&amount) {
                Some(credits) => {
                    let material = slice_of(&ws[last], 0, ws[last].len());
                    assert(material@ =~= texts_view(ws@).last());
                    let mut entries: Vec<(Vec<char>, Rate)> = Vec::new();
                    std::mem::swap(&mut self.materials, &mut entries);
                    bind(&mut entries, material, Rate { credits, quantity: quantity as u32 });
                    self.materials = entries;
                    Ok(())
                },
                None => Err(ConversionError::InvalidAmount(string_of(amount.as_slice()))),
            }
        }
    }
    /// Reads one statement: a digit definition `token is D`, or a price
    /// definition `tokens material is amount Credits`. A price statement
    /// whose known tokens form no canonical numeral (none known: a zero
    /// quantity) is refused with `InvalidNumeral`, and nothing changes.
    pub fn update(&mut self, line: &str) -> (r: Result<(), ConversionError>)
        ensures
            match r {
                Ok(()) => define_model(
                    old(self).numerals_view(),
                    old(self).materials_view(),
                    line@,
                ) == Ok::<Tables, ErrorView>((final(self).numerals_view(), final(self).materials_view())),
                Err(e) => define_model(
                    old(self).numerals_view(),
                    old(self).materials_view(),
                    line@,
                ) == Err::<Tables, ErrorView>(e@) && final(self).numerals_view() == old(self).numerals_view()
                    && final(self).materials_view() == old(self).materials_view(),
            },
    {
        let text = chars_of(line);
        self.define(&text)
    }

    /// Answers a question `... is tokens [material] ?`.
    pub fn convert(&self, question: &str) -> (r: Result<String, ConversionError>)
        ensures
            match r {
                Ok(t) => answer_model(self.numerals_view(), self.materials_view(), question@)
                    == Ok::<Seq<char>, ErrorView>(t@),
                Err(e) => answer_model(self.numerals_view(), self.materials_view(), question@)
                    == Err::<Seq<char>, ErrorView>(e@),
            },
    {
        proof {
            use_type_invariant(self);
        }
        let q = chars_of(question);
        let sep: Vec<char> = vec![' ', 'i', 's', ' '];
        assert(sep@ == separator());
        let at = match find(&q, &sep) {
            Some(at) => at,
            None => {
                return Err(ConversionError::UnknownQuestion);
            },
        };
        let n = q.len();
        assert(at + 4 <= n);
        let rest = slice_of(&q, at + 4, n);
        assert(split_once(question@, separator()) matches Some((_, r)) && r == rest@);
        let rest = trimmed(&rest);
        let rest = if rest.len() > 0 && rest[rest.len() - 1] == '?' {
            slice_of(&rest, 0, rest.len() - 1)
        } else {
            rest
        };
        let phrase = trimmed(&rest);
        let ghost parts = split_once(question@, separator())->0;
        assert(phrase@ == question_phrase(parts.1)) by {
            assert(rest@ == strip_question(trim(parts.1)));
        }
        let ws = split_words(&phrase);
        let ghost wsv = texts_view(ws@);
        let found = if ws.len() > 0 {
            lookup(&self.materials, &ws[ws.len() - 1])
        } else {
            None
        };
        let priced = found.is_some();
        assert(priced == (wsv.len() > 0 && self.materials_view().contains_key(wsv.last())));
        let count = if priced {
            ws.len() - 1
        } else {
            ws.len()
        };
        let ghost nws = if priced {
            wsv.drop_last()
        } else {
            wsv
        };
        assert(nws =~= wsv.subrange(0, count as int));
        let mut ds: Vec<RomanNumeral> = Vec::new();
        let mut i: usize = 0;
        assert(nws.subrange(0, count as int) =~= nws);
        assert(ds@ =~= nws.subrange(0, 0).map_values(|w: Seq<char>| self.numerals_view()[w]));
        while i < count
            invariant
                split_once(question@, separator()) == Some(parts),
                phrase@ == question_phrase(parts.1),
                wsv == words(phrase@),
                priced == (wsv.len() > 0 && self.materials_view().contains_key(wsv.last())),
                nws == (if priced {
                    wsv.drop_last()
                } else {
                    wsv
                }),
                count <= ws@.len(),
                wsv == texts_view(ws@),
                nws == wsv.subrange(0, count as int),
                i <= count,
                keys_unique(entries_view(self.numerals@)),
                forall|j: int| 0 <= j < i ==> self.numerals_view().contains_key(#[trigger] nws[j]),
                ds@ == nws.subrange(0, i as int).map_values(|w: Seq<char>| self.numerals_view()[w]),
                first_unknown(self.numerals_view(), nws) == first_unknown(
                    self.numerals_view(),
                    nws.subrange(i as int, count as int),
                ),
            decreases count - i,
        {
            assert(nws.subrange(i as int, count as int).drop_first() =~= nws.subrange(
                i + 1,
                count as int,
            ));
            assert(nws[i as int] == ws@[i as int]@);
            match lookup(&self.numerals, &ws[i]) {
                Some(d) => {
                    ds.push(d);
                },
                None => {
                    assert(nws.subrange(i as int, count as int)[0] == nws[i as int]);
                    assert(!self.numerals_view().contains_key(nws[i as int]));
                    assert(first_unknown(self.numerals_view(), nws) == Some(nws[i as int]));
                    let token = string_of(ws[i].as_slice());
                    return Err(ConversionError::UnknownToken(token));
                },
            }
            i = i + 1;
            assert(ds@ =~= nws.subrange(0, i as int).map_values(
                |w: Seq<char>| self.numerals_view()[w],
            ));
        }
        assert(nws.subrange(0, count as int) =~= nws);
        assert(first_unknown(self.numerals_view(), nws.subrange(count as int, count as int)) is None);
        let number = match RomanNumber::try_from(ds) {
            Ok(number) => number,
            Err(e) => {
                return Err(e);
            },
        };
        let base = number.value();
        let mut out = phrase;
        append(&mut out, &sep);
        if let Some(rate) = found {
            assert(1 <= rate.quantity <= 3999);
            assert(-0x1000_0000_0000 <= base * rate.credits <= 0x1000_0000_0000)
                by (nonlinear_arith)
                requires
                    1 <= base <= 3999,
                    i32::MIN <= rate.credits <= i32::MAX,
            {
            }
            let num = (base as i64) * (rate.credits as i64);
            let value = quotient_to_text(num, rate.quantity as u64);
            append(&mut out, &value);
            let suffix: Vec<char> = vec![' ', 'C', 'r', 'e', 'd', 'i', 't', 's'];
            append(&mut out, &suffix);
        } else {
            let value = quotient_to_text(base as i64, 1);
            append(&mut out, &value);
        }
        Ok(string_of(out.as_slice()))
    }
}

impl NumericSystem {
    /// A knowledge base built from one statement per line.
    pub fn from_lines(text: &str) -> (r: Result<NumericSystem, ConversionError>)
        ensures
            match r {
                Ok(sys) => define_all((Map::empty(), Map::empty()), lines(text@)) == Ok::<
                    Tables,
                    ErrorView,
                >((sys.numerals_view(), sys.materials_view())),
                Err(e) => define_all((Map::empty(), Map::empty()), lines(text@)) == Err::<
                    Tables,
                    ErrorView,
                >(e@),
            },
    {
        let all = split_lines(&chars_of(text));
        let ghost ls = lines(text@);
        let mut sys = NumericSystem::new();
        let mut i: usize = 0;
        while i < all.len()
            invariant
                ls == lines(text@),
                ls == texts_view(all@),
                i <= all@.len(),
                define_all((Map::empty(), Map::empty()), ls.subrange(0, i as int)) == Ok::<
                    Tables,
                    ErrorView,
                >((sys.numerals_view(), sys.materials_view())),
            decreases all@.len() - i,
        {
            assert(ls.subrange(0, i + 1).drop_last() =~= ls.subrange(0, i as int));
            let ghost prefix = ls.subrange(0, i + 1);
            match sys.define(&all[i]) {
                Ok(()) => {},
                Err(e) => {
                    proof {
                        assert(prefix.last() == all@[i as int]@);
                        assert(define_all((Map::empty(), Map::empty()), prefix) == Err::<
                            Tables,
                            ErrorView,
                        >(e@));
                        lemma_define_all_stops(
                            (Map::empty(), Map::empty()),
                            ls,
                            i + 1,
                        );
                    }
                    return Err(e);
                },
            }
            i = i + 1;
        }
        assert(ls.subrange(0, all@.len() as int) =~= ls);
        Ok(sys)
    }
}

/// Once a statement is refused, reading more statements keeps that refusal.
proof fn lemma_define_all_stops(start: Tables, ls: Seq<Seq<char>>, i: int)
    requires
        0 <= i <= ls.len(),
        define_all(start, ls.subrange(0, i)) is Err,
    ensures
        define_all(start, ls) == define_all(start, ls.subrange(0, i)),
    decreases ls.len() - i,
{
    if i < ls.len() {
        assert(ls.subrange(0, i + 1).drop_last() =~= ls.subrange(0, i));
        lemma_define_all_stops(start, ls, i + 1);
    } else {
        assert(ls.subrange(0, i) =~= ls);
    }
}

/// Binding a token again to the digit it already has changes no answer.
pub proof fn lemma_same_digit_again(
    numerals: Map<Seq<char>, RomanNumeral>,
    materials: Map<Seq<char>, Rate>,
    token: Seq<char>,
    question: Seq<char>,
)
    requires
        numerals.contains_key(token),
    ensures
        answer_model(numerals.insert(token, numerals[token]), materials, question)
            == answer_model(numerals, materials, question),
{
    assert(numerals.insert(token, numerals[token]) =~= numerals);
}

/// Pricing a material again at the price per unit it already has, whatever
/// quantity that price is stated for, changes no answer.
pub proof fn lemma_same_rate_again(
    numerals: Map<Seq<char>, RomanNumeral>,
    materials: Map<Seq<char>, Rate>,
    material: Seq<char>,
    rate: Rate,
    question: Seq<char>,
)
    requires
        materials.contains_key(material),
        rate.quantity >= 1,
        materials[material].quantity >= 1,
        rate.credits * materials[material].quantity == materials[material].credits
            * rate.quantity,
    ensures
        answer_model(numerals, materials.insert(material, rate), question) == answer_model(
            numerals,
            materials,
            question,
        ),
{
    let updated = materials.insert(material, rate);
    assert(updated.dom() =~= materials.dom());
    match split_once(question, separator()) {
        None => {},
        Some((_, rest)) => {
            let phrase = question_phrase(rest);
            let ws = words(phrase);
            if ws.len() > 0 && materials.contains_key(ws.last()) && ws.last() == material {
                let nws = ws.drop_last();
                let ds = nws.map_values(|w: Seq<char>| numerals[w]);
                let old_rate = materials[material];
                let b = evaluate(ds);
                assert((b * rate.credits) * old_rate.quantity == (b * old_rate.credits)
                    * rate.quantity) by (nonlinear_arith)
                    requires
                        rate.credits * old_rate.quantity == old_rate.credits * rate.quantity,
                {
                }
                lemma_quotient_text_equal(
                    b * rate.credits,
                    rate.quantity as int,
                    b * old_rate.credits,
                    old_rate.quantity as int,
                );
            }
        },
    }
}

/// A later digit definition of a token replaces the earlier one: every
/// question is answered as if only the later definition had been made, and
/// the token stands for the later digit.
pub proof fn lemma_redefinition(
    numerals: Map<Seq<char>, RomanNumeral>,
    materials: Map<Seq<char>, Rate>,
    token: Seq<char>,
    earlier: RomanNumeral,
    later: RomanNumeral,
    question: Seq<char>,
)
    ensures
        numerals.insert(token, earlier).insert(token, later)[token] == later,
        answer_model(numerals.insert(token, earlier).insert(token, later), materials, question)
            == answer_model(numerals.insert(token, later), materials, question),
{
    assert(numerals.insert(token, earlier).insert(token, later) =~= numerals.insert(token, later));
}

impl NumericSystem {
    /// Answers a question, or reads a statement; only a question has a reply.
    pub fn process(&mut self, line: &str) -> (r: Result<Option<String>, ConversionError>)
        ensures
            is_question(line@) ==> final(self).numerals_view() == old(self).numerals_view()
                && final(self).materials_view() == old(self).materials_view() && match r {
                Ok(Some(t)) => answer_model(
                    old(self).numerals_view(),
                    old(self).materials_view(),
                    line@,
                ) == Ok::<Seq<char>, ErrorView>(t@),
                Ok(None) => false,
                Err(e) => answer_model(
                    old(self).numerals_view(),
                    old(self).materials_view(),
                    line@,
                ) == Err::<Seq<char>, ErrorView>(e@),
            },
            !is_question(line@) ==> match r {
                Ok(Some(_)) => false,
                Ok(None) => define_model(
                    old(self).numerals_view(),
                    old(self).materials_view(),
                    line@,
                ) == Ok::<Tables, ErrorView>(
                    (final(self).numerals_view(), final(self).materials_view()),
                ),
                Err(e) => define_model(
                    old(self).numerals_view(),
                    old(self).materials_view(),
                    line@,
                ) == Err::<Tables, ErrorView>(e@) && final(self).numerals_view()
                    == old(self).numerals_view() && final(self).materials_view()
                    == old(self).materials_view(),
            },
    {
        let text = chars_of(line);
        let n = text.len();
        let question = (n >= 3 && text[0] == 'h' && text[1] == 'o' && text[2] == 'w') || (n > 0
            && text[n - 1] == '?');
        assert(question == is_question(line@)) by {
            if n >= 3 {
                if text[0] == 'h' && text[1] == 'o' && text[2] == 'w' {
                    assert(text@.subrange(0, 3) =~= seq!['h', 'o', 'w']);
                } else if text@.subrange(0, 3) == seq!['h', 'o', 'w'] {
                    assert(text@.subrange(0, 3)[0] == text@[0]);
                    assert(text@.subrange(0, 3)[1] == text@[1]);
                    assert(text@.subrange(0, 3)[2] == text@[2]);
                }
            }
        }
        if question {
            match self.convert(line) {
                Ok(answer) => Ok(Some(answer)),
                Err(e) => Err(e),
            }
        } else {
            match self.define(&text) {
                Ok(()) => Ok(None),
                Err(e) => Err(e),
            }
        }
    }
}

/// A digit statement that binds its token to the digit the token already
/// has is accepted and leaves both tables as they were, so every answer
/// stays the same.
pub proof fn lemma_digit_statement_again(
    numerals: Map<Seq<char>, RomanNumeral>,
    materials: Map<Seq<char>, Rate>,
    line: Seq<char>,
    question: Seq<char>,
)
    requires
        split_once(trim(line), separator()) matches Some((token, after)) && up_to_separator(
            after,
        ).len() == 1 && numerals.contains_key(token) && digit_of(up_to_separator(after)[0])
            == Some(numerals[token]),
    ensures
        define_model(numerals, materials, line) == Ok::<Tables, ErrorView>((numerals, materials)),
        answer_model(
            define_model(numerals, materials, line)->Ok_0.0,
            define_model(numerals, materials, line)->Ok_0.1,
            question,
        ) == answer_model(numerals, materials, question),
{
    let (token, after) = split_once(trim(line), separator())->0;
    assert(numerals.insert(token, numerals[token]) =~= numerals);
}

/// A price statement for a material that already has a price, stating the
/// same price per unit (for any quantity), is accepted, keeps the digit
/// table, and changes no answer.
pub proof fn lemma_price_statement_again(
    numerals: Map<Seq<char>, RomanNumeral>,
    materials: Map<Seq<char>, Rate>,
    line: Seq<char>,
    question: Seq<char>,
)
    requires
        define_model(numerals, materials, line) is Ok,
        split_once(trim(line), separator()) matches Some((left, after)) && up_to_separator(
            after,
        ).len() != 1 && materials.contains_key(words(left).last())
            && materials[words(left).last()].quantity >= 1 && define_model(
            numerals,
            materials,
            line,
        )->Ok_0.1[words(left).last()].credits * materials[words(left).last()].quantity
            == materials[words(left).last()].credits * define_model(
            numerals,
            materials,
            line,
        )->Ok_0.1[words(left).last()].quantity,
    ensures
        define_model(numerals, materials, line)->Ok_0.0 == numerals,
        answer_model(
            define_model(numerals, materials, line)->Ok_0.0,
            define_model(numerals, materials, line)->Ok_0.1,
            question,
        ) == answer_model(numerals, materials, question),
{
    let (left, after) = split_once(trim(line), separator())->0;
    let ws = words(left);
    let ds = known_digits(numerals, ws.drop_last());
    let m = ws.last();
    let rate = define_model(numerals, materials, line)->Ok_0.1[m];
    let n = choose|n: int| 1 <= n <= 3999 && ds == standard_form(n);
    lemma_standard_form(n);
    assert(define_model(numerals, materials, line)->Ok_0.1 == materials.insert(m, rate));
    lemma_same_rate_again(numerals, materials, m, rate, question);
}

impl std::str::FromStr for NumericSystem {
    type Err = ConversionError;

    fn from_str(s: &str) -> (r: Result<NumericSystem, ConversionError>)
        ensures
            match r {
                Ok(sys) => define_all((Map::empty(), Map::empty()), lines(s@)) == Ok::<
                    Tables,
                    ErrorView,
                >((sys.numerals_view(), sys.materials_view())),
                Err(e) => define_all((Map::empty(), Map::empty()), lines(s@)) == Err::<
                    Tables,
                    ErrorView,
                >(e@),
            },
    {
        NumericSystem::from_lines(s)
    }
}

} // verus!
