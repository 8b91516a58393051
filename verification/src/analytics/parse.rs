use vstd::prelude::*;
use vstd::string::*;
use vstd::std_specs::iter::IteratorSpec;

use crate::analytics::dataset::{Value, ValueModel};
use crate::analytics::query::{
    Aggregation, AggregationModel, Condition, ConditionModel, Query, condition_model,
};

verus! {

broadcast use vstd::string::group_string_axioms;

/// Whether `c` is white space in the sense of Unicode (`char::is_whitespace`).
pub open spec fn is_white_space(c: char) -> bool {
    ||| c == ' '
    ||| ('\t' <= c && c <= '\r')
    ||| c == '\u{85}'
    ||| c == '\u{A0}'
    ||| c == '\u{1680}'
    ||| ('\u{2000}' <= c && c <= '\u{200A}')
    ||| c == '\u{2028}'
    ||| c == '\u{2029}'
    ||| c == '\u{202F}'
    ||| c == '\u{205F}'
    ||| c == '\u{3000}'
}

/// Tells white space from other characters.
pub fn white_space(c: char) -> (r: bool)
    ensures
        r == is_white_space(c),
{
    c == ' ' || ('\t' <= c && c <= '\r') || c == '\u{85}' || c == '\u{A0}' || c == '\u{1680}' || (
    '\u{2000}' <= c && c <= '\u{200A}') || c == '\u{2028}' || c == '\u{2029}' || c == '\u{202F}'
        || c == '\u{205F}' || c == '\u{3000}'
}

/// The characters that always stand as tokens of their own.
pub open spec fn is_separated(c: char) -> bool {
    c == '(' || c == ')' || c == '!'
}

/// The text with a space put before and after every bracket and every `!`.
pub open spec fn spaced(s: Seq<char>) -> Seq<char>
    decreases s.len(),
{
    if s.len() == 0 {
        Seq::empty()
    } else if is_separated(s.last()) {
        spaced(s.drop_last()) + seq![' ', s.last(), ' ']
    } else {
        spaced(s.drop_last()).push(s.last())
    }
}

/// The maximal runs of characters other than white space, in order.
pub open spec fn split_white_space(s: Seq<char>) -> Seq<Seq<char>>
    decreases s.len(),
{
    if s.len() == 0 {
        Seq::empty()
    } else {
        let prev = split_white_space(s.drop_last());
        if is_white_space(s.last()) {
            prev
        } else if s.len() >= 2 && !is_white_space(s[s.len() - 2]) {
            prev.update(prev.len() - 1, prev.last().push(s.last()))
        } else {
            prev.push(seq![s.last()])
        }
    }
}

/// The tokens of a query text: brackets and `!` apart, the rest split at white space.
pub open spec fn tokens_of(s: Seq<char>) -> Seq<Seq<char>> {
    split_white_space(spaced(s))
}

/// The characters of a text, in order.
pub fn chars_of(s: &str) -> (r: Vec<char>)
    ensures
        r@ == s@,
{
    let mut r: Vec<char> = Vec::new();
    let mut it = s.chars();
    assert(it.remaining() == s@);
    loop
        invariant
            r@ + it.remaining() == s@,
            it.obeys_prophetic_iter_laws(),
            it.decrease() is Some,
        decreases it.decrease()->0,
    {
        match it.next() {
            Some(c) => {
                r.push(c);
                assert(r@ + it.remaining() =~= s@);
            },
            None => {
                assert(r@ =~= s@);
                return r;
            },
        }
    }
}

/// Puts a space before and after every bracket and every `!`.
pub fn space_out(s: &Vec<char>) -> (r: Vec<char>)
    ensures
        r@ == spaced(s@),
{
    let mut r: Vec<char> = Vec::new();
    let mut i: usize = 0;
    while i < s.len()
        invariant
            i <= s@.len(),
            r@ == spaced(s@.take(i as int)),
        decreases s.len() - i,
    {
        let c = s[i];
        assert(s@.take(i + 1).drop_last() =~= s@.take(i as int));
        assert(s@.take(i + 1).last() == c);
        if c == '(' || c == ')' || c == '!' {
            r.push(' ');
            r.push(c);
            r.push(' ');
        } else {
            r.push(c);
        }
        assert(r@ =~= spaced(s@.take(i + 1)));
        i = i + 1;
    }
    assert(s@.take(s.len() as int) =~= s@);
    r
}

/// Splits at white space, dropping it.
pub fn split_at_white_space(s: &Vec<char>) -> (r: Vec<Vec<char>>)
    ensures
        r@.len() == split_white_space(s@).len(),
        forall|k: int| 0 <= k < r@.len() ==> (#[trigger] r@[k])@ == split_white_space(s@)[k],
{
    let mut done: Vec<Vec<char>> = Vec::new();
    let mut cur: Vec<char> = Vec::new();
    let mut i: usize = 0;
    while i < s.len()
        invariant
            i <= s@.len(),
            ({
                let t = split_white_space(s@.take(i as int));
                &&& (cur@.len() > 0 <==> (i > 0 && !is_white_space(s@[i - 1])))
                &&& t.len() == done@.len() + (if cur@.len() > 0 {
                    1int
                } else {
                    0int
                })
                &&& forall|k: int| 0 <= k < done@.len() ==> (#[trigger] done@[k])@ == t[k]
                &&& cur@.len() > 0 ==> cur@ == t[t.len() - 1]
            }),
        decreases s.len() - i,
    {
        let c = s[i];
        let ghost pre = s@.take(i as int);
        let ghost post = s@.take(i + 1);
        assert(post.drop_last() =~= pre);
        assert(post.last() == c);
        if white_space(c) {
            if cur.len() > 0 {
                let full = cur;
                done.push(full);
                cur = Vec::new();
            }
        } else {
            if i > 0 {
                assert(post[post.len() - 2] == s@[i - 1]);
            }
            cur.push(c);
        }
        i = i + 1;
    }
    assert(s@.take(s.len() as int) =~= s@);
    if cur.len() > 0 {
        done.push(cur);
    }
    done
}

/// The tokens of a query text.
pub fn tokenize(input: &str) -> (r: Vec<Vec<char>>)
    ensures
        r@.len() == tokens_of(input@).len(),
        forall|k: int| 0 <= k < r@.len() ==> (#[trigger] r@[k])@ == tokens_of(input@)[k],
{
    let chars = chars_of(input);
    let spaced_chars = space_out(&chars);
    split_at_white_space(&spaced_chars)
}

} // verus!

verus! {

/// The text with every leading and every trailing `"` taken off (`str::trim_matches('"')`).
pub open spec fn trim_quotes(s: Seq<char>) -> Seq<char>
    decreases s.len(),
{
    if s.len() > 0 && s[0] == '"' {
        trim_quotes(s.drop_first())
    } else if s.len() > 0 && s.last() == '"' {
        trim_quotes(s.drop_last())
    } else {
        s
    }
}

/// Takes every leading and every trailing `"` off.
pub fn strip_quotes(s: &Vec<char>) -> (r: Vec<char>)
    ensures
        r@ == trim_quotes(s@),
{
    let n = s.len();
    let mut a: usize = 0;
    assert(s@.subrange(0, n as int) =~= s@);
    while a < n && s[a] == '"'
        invariant
            a <= n,
            n == s@.len(),
            trim_quotes(s@) == trim_quotes(s@.subrange(a as int, n as int)),
        decreases n - a,
    {
        assert(s@.subrange(a as int, n as int).drop_first() =~= s@.subrange(a + 1, n as int));
        a = a + 1;
    }
    let mut b: usize = n;
    while b > a && s[b - 1] == '"'
        invariant
            a <= b <= n,
            n == s@.len(),
            a < n ==> s@[a as int] != '"',
            trim_quotes(s@) == trim_quotes(s@.subrange(a as int, b as int)),
        decreases b - a,
    {
        assert(s@.subrange(a as int, b as int).drop_last() =~= s@.subrange(a as int, b - 1));
        b = b - 1;
    }
    let mut r: Vec<char> = Vec::new();
    let mut i: usize = a;
    while i < b
        invariant
            a <= i <= b <= n,
            n == s@.len(),
            r@ == s@.subrange(a as int, i as int),
        decreases b - i,
    {
        r.push(s[i]);
        assert(r@ =~= s@.subrange(a as int, i + 1));
        i = i + 1;
    }
    r
}

/// Whether `c` is an ASCII digit.
pub open spec fn is_digit(c: char) -> bool {
    '0' <= c && c <= '9'
}

/// Whether every character is an ASCII digit.
pub open spec fn all_digits(s: Seq<char>) -> bool {
    forall|i: int| 0 <= i < s.len() ==> is_digit(#[trigger] s[i])
}

/// The number that a string of decimal digits writes.
pub open spec fn digits_value(s: Seq<char>) -> int
    decreases s.len(),
{
    if s.len() == 0 {
        0
    } else {
        digits_value(s.drop_last()) * 10 + (s.last() as int - '0' as int)
    }
}

/// What `str::parse::<i32>` gives: an optional sign, then one or more decimal digits,
/// whose value fits in an `i32`; `None` for anything else.
pub open spec fn parse_i32_spec(s: Seq<char>) -> Option<i32> {
    let neg = s.len() > 0 && s[0] == '-';
    let body = if s.len() > 0 && (s[0] == '-' || s[0] == '+') {
        s.drop_first()
    } else {
        s
    };
    let v = if neg {
        -digits_value(body)
    } else {
        digits_value(body)
    };
    if body.len() == 0 || !all_digits(body) {
        None
    } else if i32::MIN <= v <= i32::MAX {
        Some(v as i32)
    } else {
        None
    }
}

/// Reads a decimal integer the way `str::parse::<i32>` does.
pub fn parse_i32(s: &Vec<char>) -> (r: Option<i32>)
    ensures
        r == parse_i32_spec(s@),
{
    let n = s.len();
    let neg = n > 0 && s[0] == '-';
    let start: usize = if n > 0 && (s[0] == '-' || s[0] == '+') {
        1
    } else {
        0
    };
    let ghost body = if n > 0 && (s@[0] == '-' || s@[0] == '+') {
        s@.drop_first()
    } else {
        s@
    };
    assert(body =~= s@.subrange(start as int, n as int));
    if start == n {
        return None;
    }
    let cap: i64 = 2147483649;
    let mut acc: i64 = 0;
    let mut i: usize = start;
    while i < n
        invariant
            start <= i <= n,
            n == s@.len(),
            body == s@.subrange(start as int, n as int),
            body == (if n > 0 && (s@[0] == '-' || s@[0] == '+') {
                s@.drop_first()
            } else {
                s@
            }),
            neg == (n > 0 && s@[0] == '-'),
            start < n,
            cap == 2147483649,
            0 <= acc <= cap,
            acc == (if digits_value(body.take(i - start)) < cap {
                digits_value(body.take(i - start))
            } else {
                cap as int
            }),
            forall|k: int| 0 <= k < i - start ==> is_digit(#[trigger] body[k]),
        decreases n - i,
    {
        let c = s[i];
        assert(body[i - start] == c);
        if !('0' <= c && c <= '9') {
            assert(!is_digit(body[i - start]));
            assert(!all_digits(body));
            return None;
        }
        let ghost prev = body.take(i - start);
        let ghost next = body.take(i - start + 1);
        assert(next.drop_last() =~= prev);
        assert(next.last() == c);
        let d = (c as u32 - '0' as u32) as i64;
        assert(digits_value(next) == digits_value(prev) * 10 + d);
        assert(digits_value(prev) >= 0) by {
            lemma_digits_value_nonneg(prev);
        }
        let next_acc = acc * 10 + d;
        acc = if next_acc < cap {
            next_acc
        } else {
            cap
        };
        i = i + 1;
    }
    assert(body.take(n - start) =~= body);
    if neg {
        if acc <= 2147483648 {
            Some((0 - acc) as i32)
        } else {
            None
        }
    } else {
        if acc <= 2147483647 {
            Some(acc as i32)
        } else {
            None
        }
    }
}

/// A string of digits never writes a negative number.
pub proof fn lemma_digits_value_nonneg(s: Seq<char>)
    requires
        forall|k: int| 0 <= k < s.len() ==> is_digit(#[trigger] s[k]),
    ensures
        digits_value(s) >= 0,
    decreases s.len(),
{
    if s.len() > 0 {
        lemma_digits_value_nonneg(s.drop_last());
        assert(is_digit(s[s.len() - 1]));
    }
}

} // verus!

verus! {

/// Whether the token spells out `s`.
pub fn token_is(t: &Vec<char>, s: &str) -> (r: bool)
    ensures
        r == (t@ == s@),
{
    let n = s.unicode_len();
    if t.len() != n {
        return false;
    }
    let mut i: usize = 0;
    while i < n
        invariant
            i <= n,
            n == s@.len(),
            t@.len() == n,
            forall|k: int| 0 <= k < i ==> t@[k] == s@[k],
        decreases n - i,
    {
        if t[i] != s.get_char(i) {
            return false;
        }
        i = i + 1;
    }
    assert(t@ =~= s@);
    true
}

/// Builds a `String` from characters with std's `String::from_iter` (`FromIterator<&char>`).
/// Claimed, as its documentation says: the string holds exactly those characters, in order.
#[verifier::external_body]
fn string_from_chars(v: &Vec<char>) -> (s: String)
    ensures
        s@ == v@,
{
    String::from_iter(v)
}

/// The value that a token written after `==` stands for: the token without its quotes,
/// read as an `i32` where it is one, else as text.
pub open spec fn token_value(raw: Seq<char>) -> ValueModel {
    match parse_i32_spec(trim_quotes(raw)) {
        Some(n) => ValueModel::Integer(n),
        None => ValueModel::Text(trim_quotes(raw)),
    }
}

/// The condition written from token `pos` on, with the position after it, or `None` where
/// reading it would run past the last token. A condition is `column == value`,
/// `( ! condition )`, or `( condition op condition )` where `op` other than `AND` means or.
/// The tokens in the places of `==` and of `)` are skipped unread.
pub open spec fn parse_condition_spec(t: Seq<Seq<char>>, pos: int) -> Option<(ConditionModel, int)>
    decreases t.len() + 2 - pos,
{
    if pos < 0 || pos >= t.len() {
        None
    } else if t[pos] == "("@ {
        if pos + 1 >= t.len() {
            None
        } else if t[pos + 1] == "!"@ {
            match parse_condition_spec(t, pos + 2) {
                None => None,
                Some((inner, q)) => Some((ConditionModel::Not(Box::new(inner)), q + 1)),
            }
        } else {
            match parse_condition_spec(t, pos + 1) {
                None => None,
                Some((left, q)) => {
                    if q <= pos || q >= t.len() {
                        None
                    } else {
                        match parse_condition_spec(t, q + 1) {
                            None => None,
                            Some((right, q2)) => Some(
                                (
                                    if t[q] == "AND"@ {
                                        ConditionModel::And(Box::new(left), Box::new(right))
                                    } else {
                                        ConditionModel::Or(Box::new(left), Box::new(right))
                                    },
                                    q2 + 1,
                                ),
                            ),
                        }
                    }
                },
            }
        }
    } else if pos + 2 >= t.len() {
        None
    } else {
        Some((ConditionModel::Equal(t[pos], token_value(t[pos + 2])), pos + 3))
    }
}

/// Reading a condition moves forward, and not far past the end.
pub proof fn lemma_parse_condition_progress(t: Seq<Seq<char>>, pos: int)
    ensures
        parse_condition_spec(t, pos) matches Some((c, q)) ==> pos < q <= 2 * t.len() + 1 - pos,
    decreases t.len() + 2 - pos,
{
    if 0 <= pos < t.len() && t[pos] == "("@ && pos + 1 < t.len() {
        if t[pos + 1] == "!"@ {
            lemma_parse_condition_progress(t, pos + 2);
        } else {
            lemma_parse_condition_progress(t, pos + 1);
            if let Some((left, q)) = parse_condition_spec(t, pos + 1) {
                if pos < q < t.len() {
                    lemma_parse_condition_progress(t, q + 1);
                }
            }
        }
    }
}

/// The model of the tokens.
pub open spec fn tokens_model(t: Seq<Vec<char>>) -> Seq<Seq<char>> {
    t.map_values(|x: Vec<char>| x@)
}

/// Reads the condition that starts at token `pos`.
pub fn parse_condition(tokens: &Vec<Vec<char>>, pos: u128) -> (r: Option<(Condition, u128)>)
    requires
        pos <= tokens@.len(),
    ensures
        match r {
            None => parse_condition_spec(tokens_model(tokens@), pos as int) is None,
            Some((c, q)) => parse_condition_spec(tokens_model(tokens@), pos as int) == Some(
                (condition_model(c), q as int),
            ),
        },
    decreases tokens@.len() + 2 - pos,
{
    let ghost t = tokens_model(tokens@);
    proof {
        lemma_parse_condition_progress(t, pos as int);
    }
    let n = tokens.len() as u128;
    if pos >= n {
        return None;
    }
    let i = pos as usize;
    assert(t[i as int] == tokens@[i as int]@);
    if token_is(&tokens[i], "(") {
        if pos + 1 >= n {
            return None;
        }
        assert(t[i + 1] == tokens@[i + 1]@);
        if token_is(&tokens[i + 1], "!") {
            match parse_condition(tokens, pos + 2) {
                None => None,
                Some((inner, q)) => {
                    proof {
                        lemma_parse_condition_progress(t, pos + 2);
                    }
                    Some((Condition::Not(Box::new(inner)), q + 1))
                },
            }
        } else {
            match parse_condition(tokens, pos + 1) {
                None => None,
                Some((left, q)) => {
                    proof {
                        lemma_parse_condition_progress(t, pos + 1);
                    }
                    if q >= n {
                        return None;
                    }
                    let is_and = token_is(&tokens[q as usize], "AND");
                    assert(t[q as int] == tokens@[q as int]@);
                    match parse_condition(tokens, q + 1) {
                        None => None,
                        Some((right, q2)) => {
                            proof {
                                lemma_parse_condition_progress(t, q + 1);
                            }
                            let c = if is_and {
                                Condition::And(Box::new(left), Box::new(right))
                            } else {
                                Condition::Or(Box::new(left), Box::new(right))
                            };
                            Some((c, q2 + 1))
                        },
                    }
                },
            }
        }
    } else {
        if pos + 2 >= n {
            return None;
        }
        assert(t[i + 2] == tokens@[i + 2]@);
        let column = string_from_chars(&tokens[i]);
        let raw = strip_quotes(&tokens[i + 2]);
        let value = match parse_i32(&raw) {
            Some(v) => Value::Integer(v),
            None => Value::String(string_from_chars(&raw)),
        };
        Some((Condition::Equal(column, value), pos + 3))
    }
}

} // verus!

verus! {

/// What a query text says: its filter, its grouping column and its aggregation.
pub struct QueryModel {
    pub filter: ConditionModel,
    pub group_by: Seq<char>,
    pub aggregate: AggregationModel,
}

/// The model of a query.
pub open spec fn query_model(q: Query) -> QueryModel {
    QueryModel {
        filter: condition_model(q.filter()),
        group_by: q.group_by()@,
        aggregate: q.aggregate().model(),
    }
}

/// The query that the tokens write: `FILTER condition GROUP BY column kind column`, with
/// `kind` one of `COUNT`, `SUM`, `AVERAGE`; `None` where a keyword is missing, the kind is
/// unknown, or reading runs past the last token. Tokens after the last one read are ignored.
pub open spec fn parse_query_spec(t: Seq<Seq<char>>) -> Option<QueryModel> {
    if t.len() == 0 || t[0] != "FILTER"@ {
        None
    } else {
        match parse_condition_spec(t, 1) {
            None => None,
            Some((filter, p)) => {
                if p + 4 >= t.len() || t[p] != "GROUP"@ || t[p + 1] != "BY"@ {
                    None
                } else {
                    let kind = t[p + 3];
                    let col = t[p + 4];
                    if kind == "COUNT"@ {
                        Some(
                            QueryModel {
                                filter,
                                group_by: t[p + 2],
                                aggregate: AggregationModel::Count(col),
                            },
                        )
                    } else if kind == "SUM"@ {
                        Some(
                            QueryModel {
                                filter,
                                group_by: t[p + 2],
                                aggregate: AggregationModel::Sum(col),
                            },
                        )
                    } else if kind == "AVERAGE"@ {
                        Some(
                            QueryModel {
                                filter,
                                group_by: t[p + 2],
                                aggregate: AggregationModel::Average(col),
                            },
                        )
                    } else {
                        None
                    }
                }
            },
        }
    }
}

/// Reads a query text; `None` exactly where the text is not a query in the sense of
/// `parse_query_spec`.
pub fn try_parse_query(input: &str) -> (r: Option<Query>)
    ensures
        match r {
            None => parse_query_spec(tokens_of(input@)) is None,
            Some(q) => parse_query_spec(tokens_of(input@)) == Some(query_model(q)),
        },
{
    let tokens = tokenize(input);
    let ghost t = tokens_of(input@);
    assert(tokens_model(tokens@) =~= t);
    let n = tokens.len() as u128;
    if tokens.len() == 0 || !token_is(&tokens[0], "FILTER") {
        return None;
    }
    let (condition, p) = match parse_condition(&tokens, 1) {
        None => {
            return None;
        },
        Some(x) => x,
    };
    proof {
        lemma_parse_condition_progress(t, 1);
    }
    if p + 4 >= n {
        return None;
    }
    let i = p as usize;
    if !token_is(&tokens[i], "GROUP") || !token_is(&tokens[i + 1], "BY") {
        return None;
    }
    let group_by = string_from_chars(&tokens[i + 2]);
    let aggregation_column = string_from_chars(&tokens[i + 4]);
    let kind = &tokens[i + 3];
    let aggregation = if token_is(kind, "COUNT") {
        Aggregation::Count(aggregation_column)
    } else if token_is(kind, "SUM") {
        Aggregation::Sum(aggregation_column)
    } else if token_is(kind, "AVERAGE") {
        Aggregation::Average(aggregation_column)
    } else {
        return None;
    };
    Some(Query::new(condition, group_by, aggregation))
}

/// Reads a query text that is known to be a query.
pub fn parse_query_from_string(input: String) -> (r: Query)
    requires
        parse_query_spec(tokens_of(input@)) is Some,
    ensures
        parse_query_spec(tokens_of(input@)) == Some(query_model(r)),
{
    let r = try_parse_query(input.as_str());
    r.unwrap()
}

} // verus!

verus! {

/// Whether a token is non-empty and holds no white space.
pub open spec fn token_ok(t: Seq<char>) -> bool {
    t.len() > 0 && forall|i: int| 0 <= i < t.len() ==> !is_white_space(#[trigger] t[i])
}

/// Splitting gives non-empty tokens without white space, and the last token runs to the
/// end of the text exactly when the text ends in a character other than white space.
pub proof fn lemma_split_tokens_ok(s: Seq<char>)
    ensures
        forall|k: int|
            0 <= k < split_white_space(s).len() ==> token_ok(#[trigger] split_white_space(s)[k]),
        (s.len() > 0 && !is_white_space(s.last())) ==> split_white_space(s).len() > 0,
    decreases s.len(),
{
    if s.len() > 0 {
        let prev = s.drop_last();
        lemma_split_tokens_ok(prev);
        let t = split_white_space(prev);
        if !is_white_space(s.last()) && s.len() >= 2 && !is_white_space(s[s.len() - 2]) {
            assert(prev.last() == s[s.len() - 2]);
            let last = t.last().push(s.last());
            assert forall|i: int| 0 <= i < last.len() implies !is_white_space(#[trigger] last[i]) by {
                if i < t.last().len() {
                    assert(token_ok(t[t.len() - 1]));
                }
            }
        }
    }
}

/// Every token of a query text is non-empty and holds no white space.
pub proof fn lemma_tokens_ok(s: Seq<char>)
    ensures
        forall|k: int| 0 <= k < tokens_of(s).len() ==> token_ok(#[trigger] tokens_of(s)[k]),
{
    lemma_split_tokens_ok(spaced(s));
}

} // verus!

verus! {

/// Spacing out a joined text spaces out each part.
pub proof fn lemma_spaced_concat(x: Seq<char>, y: Seq<char>)
    ensures
        spaced(x + y) == spaced(x) + spaced(y),
    decreases y.len(),
{
    if y.len() == 0 {
        assert(x + y =~= x);
        assert(spaced(x) + spaced(y) =~= spaced(x));
    } else {
        let y2 = y.drop_last();
        assert((x + y).drop_last() =~= x + y2);
        assert((x + y).last() == y.last());
        lemma_spaced_concat(x, y2);
        if is_separated(y.last()) {
            assert(spaced(x) + spaced(y2) + seq![' ', y.last(), ' '] =~= spaced(x) + (spaced(y2)
                + seq![' ', y.last(), ' ']));
        } else {
            assert((spaced(x) + spaced(y2)).push(y.last()) =~= spaced(x) + spaced(y2).push(
                y.last(),
            ));
        }
    }
}

/// A bracket or `!` at the end of a text spaces out to a text that ends in white space;
/// at its start, to one that starts with white space.
pub proof fn lemma_spaced_ends(s: Seq<char>)
    ensures
        s.len() > 0 && is_separated(s.last()) ==> spaced(s).len() > 0 && is_white_space(
            spaced(s).last(),
        ),
        s.len() > 0 && is_separated(s[0]) ==> spaced(s).len() > 0 && is_white_space(spaced(s)[0]),
        s.len() > 0 ==> spaced(s).len() > 0,
{
    if s.len() > 0 {
        let first = seq![s[0]];
        assert(s =~= first + s.drop_first());
        lemma_spaced_concat(first, s.drop_first());
        assert(first.drop_last() =~= Seq::<char>::empty());
        assert(spaced(first.drop_last()) =~= Seq::<char>::empty());
        if is_separated(s[0]) {
            assert(spaced(first) =~= seq![' ', s[0], ' ']);
        } else {
            assert(spaced(first) =~= seq![s[0]]);
        }
    }
}

/// White space put next to white space does not change how a text splits.
pub proof fn lemma_split_insert_white_space(x: Seq<char>, y: Seq<char>, w: char)
    requires
        is_white_space(w),
        (x.len() > 0 && is_white_space(x.last())) || (y.len() > 0 && is_white_space(y[0])),
    ensures
        split_white_space(x + seq![w] + y) == split_white_space(x + y),
    decreases y.len(),
{
    let s1 = x + seq![w] + y;
    let s2 = x + y;
    if y.len() == 0 {
        assert(s1 =~= x.push(w));
        assert(s2 =~= x);
        assert(x.push(w).drop_last() =~= x);
        assert(split_white_space(x.push(w)) == split_white_space(x));
    } else {
        let y2 = y.drop_last();
        let c = y.last();
        assert(s1.drop_last() =~= x + seq![w] + y2);
        assert(s2.drop_last() =~= x + y2);
        assert(s1.last() == c && s2.last() == c);
        if y2.len() > 0 {
            assert(y2[0] == y[0]);
            lemma_split_insert_white_space(x, y2, w);
            assert(s1[s1.len() - 2] == y2.last());
            assert(s2[s2.len() - 2] == y2.last());
            assert(split_white_space(s1) == split_white_space(s2));
        } else if x.len() > 0 && is_white_space(x.last()) {
            lemma_split_insert_white_space(x, y2, w);
            assert(s1[s1.len() - 2] == w);
            assert(s2[s2.len() - 2] == x.last());
            assert(split_white_space(s1) == split_white_space(s2));
        } else {
            assert(is_white_space(c));
            assert(x + seq![w] + y2 =~= x.push(w));
            assert(x.push(w).drop_last() =~= x);
            assert(x + y2 =~= x);
            assert(split_white_space(s1) == split_white_space(x.push(w)));
            assert(split_white_space(x.push(w)) == split_white_space(x));
            assert(split_white_space(s2) == split_white_space(x));
        }
    }
}

/// White space put or taken away right before or after a bracket or a `!` does not change
/// the tokens, nor, therefore, the query that a text reads as.
pub proof fn lemma_tokens_insert_space(a: Seq<char>, b: Seq<char>, w: char)
    requires
        is_white_space(w),
        (a.len() > 0 && is_separated(a.last())) || (b.len() > 0 && is_separated(b[0])),
    ensures
        tokens_of(a + seq![w] + b) == tokens_of(a + b),
        parse_query_spec(tokens_of(a + seq![w] + b)) == parse_query_spec(tokens_of(a + b)),
{
    lemma_spaced_concat(a + seq![w], b);
    lemma_spaced_concat(a, seq![w]);
    lemma_spaced_concat(a, b);
    assert(seq![w].drop_last() =~= Seq::<char>::empty());
    assert(!is_separated(w));
    assert(spaced(Seq::<char>::empty()) =~= Seq::<char>::empty());
    assert(seq![w].last() == w);
    assert(spaced(seq![w]) == spaced(seq![w].drop_last()).push(w));
    assert(spaced(seq![w]) =~= seq![w]);
    lemma_spaced_ends(a);
    lemma_spaced_ends(b);
    lemma_split_insert_white_space(spaced(a), spaced(b), w);
}

} // verus!

verus! {

/// Reading a condition that ends inside the tokens reads the same wherever those tokens
/// stand among others: at offset `k` of `u` it gives the same condition, `k` further on.
pub proof fn lemma_parse_condition_shift(t: Seq<Seq<char>>, u: Seq<Seq<char>>, k: int, p: int)
    requires
        parse_condition_spec(t, p) is Some,
        parse_condition_spec(t, p).unwrap().1 <= t.len(),
        0 <= k,
        k + t.len() <= u.len(),
        forall|i: int| 0 <= i < t.len() ==> u[k + i] == #[trigger] t[i],
    ensures
        parse_condition_spec(u, k + p) == Some(
            (parse_condition_spec(t, p).unwrap().0, k + parse_condition_spec(t, p).unwrap().1),
        ),
    decreases t.len() + 2 - p,
{
    lemma_parse_condition_progress(t, p);
    assert(u[k + p] == t[p]);
    if t[p] == "("@ {
        assert(u[k + p + 1] == t[p + 1]);
        if t[p + 1] == "!"@ {
            lemma_parse_condition_progress(t, p + 2);
            lemma_parse_condition_shift(t, u, k, p + 2);
            assert(k + (p + 2) == (k + p) + 2);
        } else {
            lemma_parse_condition_shift(t, u, k, p + 1);
            assert(k + (p + 1) == (k + p) + 1);
            let q = parse_condition_spec(t, p + 1).unwrap().1;
            assert(u[k + q] == t[q]);
            lemma_parse_condition_progress(t, q + 1);
            lemma_parse_condition_shift(t, u, k, q + 1);
            assert(k + (q + 1) == (k + q) + 1);
        }
    } else {
        assert(u[k + p + 2] == t[p + 2]);
    }
}

/// Bracketed `AND`, `OR` and `!` texts read as And, Or and Not of their parts, the left
/// part first, where each part reads as a whole condition and the left part does not start
/// with `!`.
pub proof fn lemma_parse_condition_compose(t1: Seq<Seq<char>>, t2: Seq<Seq<char>>)
    requires
        parse_condition_spec(t1, 0) is Some,
        parse_condition_spec(t1, 0).unwrap().1 == t1.len(),
        parse_condition_spec(t2, 0) is Some,
        parse_condition_spec(t2, 0).unwrap().1 == t2.len(),
        t1[0] != "!"@,
    ensures
        ({
            let m1 = parse_condition_spec(t1, 0).unwrap().0;
            let m2 = parse_condition_spec(t2, 0).unwrap().0;
            let and_t = seq!["("@] + t1 + seq!["AND"@] + t2 + seq![")"@];
            let or_t = seq!["("@] + t1 + seq!["OR"@] + t2 + seq![")"@];
            let not_t = seq!["("@, "!"@] + t1 + seq![")"@];
            &&& parse_condition_spec(and_t, 0) == Some(
                (ConditionModel::And(Box::new(m1), Box::new(m2)), and_t.len() as int),
            )
            &&& parse_condition_spec(or_t, 0) == Some(
                (ConditionModel::Or(Box::new(m1), Box::new(m2)), or_t.len() as int),
            )
            &&& parse_condition_spec(not_t, 0) == Some(
                (ConditionModel::Not(Box::new(m1)), not_t.len() as int),
            )
        }),
{
    reveal_strlit("AND");
    reveal_strlit("OR");
    let n1 = t1.len() as int;
    let n2 = t2.len() as int;
    lemma_parse_condition_progress(t1, 0);
    let and_t = seq!["("@] + t1 + seq!["AND"@] + t2 + seq![")"@];
    let or_t = seq!["("@] + t1 + seq!["OR"@] + t2 + seq![")"@];
    let not_t = seq!["("@, "!"@] + t1 + seq![")"@];
    assert("OR"@ != "AND"@) by {
        assert("OR"@.len() != "AND"@.len());
    }
    assert forall|i: int| 0 <= i < n1 implies and_t[1 + i] == #[trigger] t1[i] && or_t[1 + i]
        == t1[i] && not_t[2 + i] == t1[i] by {}
    assert forall|i: int| 0 <= i < n2 implies and_t[n1 + 2 + i] == #[trigger] t2[i] && or_t[n1 + 2
        + i] == t2[i] by {}
    lemma_parse_condition_shift(t1, and_t, 1, 0);
    lemma_parse_condition_shift(t2, and_t, n1 + 2, 0);
    lemma_parse_condition_shift(t1, or_t, 1, 0);
    lemma_parse_condition_shift(t2, or_t, n1 + 2, 0);
    lemma_parse_condition_shift(t1, not_t, 2, 0);
    assert(and_t[0] == "("@ && and_t[1] == t1[0] && and_t[n1 + 1] == "AND"@);
    assert(or_t[0] == "("@ && or_t[1] == t1[0] && or_t[n1 + 1] == "OR"@);
    assert(not_t[0] == "("@ && not_t[1] == "!"@);
}

/// A query text with a whole condition reads as that condition, grouped by `g`, counting `x`.
pub proof fn lemma_parse_query_filter(t: Seq<Seq<char>>, g: Seq<char>, x: Seq<char>)
    requires
        parse_condition_spec(t, 0) is Some,
        parse_condition_spec(t, 0).unwrap().1 == t.len(),
    ensures
        parse_query_spec(seq!["FILTER"@] + t + seq!["GROUP"@, "BY"@, g, "COUNT"@, x]) == Some(
            QueryModel {
                filter: parse_condition_spec(t, 0).unwrap().0,
                group_by: g,
                aggregate: AggregationModel::Count(x),
            },
        ),
{
    let u = seq!["FILTER"@] + t + seq!["GROUP"@, "BY"@, g, "COUNT"@, x];
    let n = t.len() as int;
    assert forall|i: int| 0 <= i < n implies u[1 + i] == #[trigger] t[i] by {}
    lemma_parse_condition_shift(t, u, 1, 0);
    assert(u[0] == "FILTER"@);
    assert(u[n + 1] == "GROUP"@ && u[n + 2] == "BY"@ && u[n + 3] == g && u[n + 4] == "COUNT"@
        && u[n + 5] == x);
}

} // verus!

verus! {

/// Two texts split apart where white space stands between them.
pub proof fn lemma_split_concat(x: Seq<char>, y: Seq<char>)
    requires
        x.len() == 0 || y.len() == 0 || is_white_space(x.last()) || is_white_space(y[0]),
    ensures
        split_white_space(x + y) == split_white_space(x) + split_white_space(y),
    decreases y.len(),
{
    if y.len() == 0 {
        assert(x + y =~= x);
        assert(split_white_space(y) =~= Seq::<Seq<char>>::empty());
        assert(split_white_space(x) + split_white_space(y) =~= split_white_space(x));
    } else {
        let y2 = y.drop_last();
        let c = y.last();
        let s = x + y;
        assert(s.drop_last() =~= x + y2);
        assert(s.last() == c);
        let sx = split_white_space(x);
        if y2.len() > 0 {
            assert(y2[0] == y[0]);
            lemma_split_concat(x, y2);
            assert(s[s.len() - 2] == y2.last());
            assert(y[y.len() - 2] == y2.last());
            let sy2 = split_white_space(y2);
            if !is_white_space(c) && !is_white_space(y2.last()) {
                lemma_split_tokens_ok(y2);
                assert((sx + sy2).update(sx.len() + sy2.len() - 1, sy2.last().push(c)) =~= sx
                    + sy2.update(sy2.len() - 1, sy2.last().push(c)));
            } else if !is_white_space(c) {
                assert((sx + sy2).push(seq![c]) =~= sx + sy2.push(seq![c]));
            }
        } else {
            assert(x + y2 =~= x);
            assert(y =~= seq![c]);
            assert(y.drop_last() =~= Seq::<char>::empty());
            assert(split_white_space(Seq::<char>::empty()) =~= Seq::<Seq<char>>::empty());
            if !is_white_space(c) {
                assert(x.len() == 0 || is_white_space(x.last()));
                if x.len() > 0 {
                    assert(s[s.len() - 2] == x.last());
                }
                assert(split_white_space(y) =~= seq![seq![c]]);
                assert(sx.push(seq![c]) =~= sx + seq![seq![c]]);
            } else {
                assert(split_white_space(y) =~= Seq::<Seq<char>>::empty());
                assert(sx + Seq::<Seq<char>>::empty() =~= sx);
            }
        }
    }
}

/// Whether the tokens of two texts join without merging across the seam.
pub open spec fn joinable(a: Seq<char>, b: Seq<char>) -> bool {
    ||| a.len() == 0
    ||| b.len() == 0
    ||| is_white_space(a.last())
    ||| is_separated(a.last())
    ||| is_white_space(b[0])
    ||| is_separated(b[0])
}

/// The first and last characters of a spaced text: those of the text, or white space
/// where the text starts or ends with a bracket or `!`.
proof fn lemma_spaced_edges(s: Seq<char>)
    requires
        s.len() > 0,
    ensures
        spaced(s).len() > 0,
        is_separated(s.last()) ==> is_white_space(spaced(s).last()),
        !is_separated(s.last()) ==> spaced(s).last() == s.last(),
        is_separated(s[0]) ==> is_white_space(spaced(s)[0]),
        !is_separated(s[0]) ==> spaced(s)[0] == s[0],
{
    let first = seq![s[0]];
    assert(s =~= first + s.drop_first());
    lemma_spaced_concat(first, s.drop_first());
    assert(first.drop_last() =~= Seq::<char>::empty());
    assert(spaced(first.drop_last()) =~= Seq::<char>::empty());
    if is_separated(s[0]) {
        assert(spaced(first) =~= seq![' ', s[0], ' ']);
    } else {
        assert(spaced(first) =~= seq![s[0]]);
    }
}

/// Joinable texts have as tokens the tokens of the first, then those of the second.
pub proof fn lemma_tokens_concat(a: Seq<char>, b: Seq<char>)
    requires
        joinable(a, b),
    ensures
        tokens_of(a + b) == tokens_of(a) + tokens_of(b),
{
    lemma_spaced_concat(a, b);
    if a.len() > 0 {
        lemma_spaced_edges(a);
    } else {
        assert(spaced(a) =~= Seq::<char>::empty());
    }
    if b.len() > 0 {
        lemma_spaced_edges(b);
    } else {
        assert(spaced(b) =~= Seq::<char>::empty());
    }
    lemma_split_concat(spaced(a), spaced(b));
}

/// Whether a text is one plain word: no white space, brackets or `!`.
pub open spec fn plain_word(w: Seq<char>) -> bool {
    w.len() > 0 && forall|i: int|
        0 <= i < w.len() ==> !is_white_space(#[trigger] w[i]) && !is_separated(w[i])
}

/// A plain word is its own only token.
pub proof fn lemma_word_tokens(w: Seq<char>)
    requires
        plain_word(w),
    ensures
        spaced(w) == w,
        tokens_of(w) == seq![w],
    decreases w.len(),
{
    let p = w.drop_last();
    assert(w[w.len() - 1] == w.last());
    if p.len() > 0 {
        assert forall|i: int| 0 <= i < p.len() implies !is_white_space(#[trigger] p[i])
            && !is_separated(p[i]) by {
            assert(p[i] == w[i]);
        }
        lemma_word_tokens(p);
        assert(p.push(w.last()) =~= w);
        assert(w[w.len() - 2] == p.last());
        assert(seq![p].update(0, p.push(w.last())) =~= seq![w]);
    } else {
        assert(spaced(p) =~= Seq::<char>::empty());
        assert(split_white_space(p) =~= Seq::<Seq<char>>::empty());
        assert(w =~= seq![w.last()]);
    }
}

/// A lone bracket or `!` is its own only token; a lone white space gives none.
pub proof fn lemma_single_tokens(c: char)
    ensures
        is_separated(c) ==> tokens_of(seq![c]) == seq![seq![c]],
        is_white_space(c) ==> tokens_of(seq![c]) == Seq::<Seq<char>>::empty(),
{
    let s = seq![c];
    assert(s.drop_last() =~= Seq::<char>::empty());
    assert(spaced(Seq::<char>::empty()) =~= Seq::<char>::empty());
    assert(split_white_space(Seq::<char>::empty()) =~= Seq::<Seq<char>>::empty());
    if is_separated(c) {
        let e = seq![' ', c, ' '];
        assert(spaced(s) =~= e);
        assert(e.drop_last() =~= seq![' ', c]);
        assert(seq![' ', c].drop_last() =~= seq![' ']);
        assert(seq![' '].drop_last() =~= Seq::<char>::empty());
        assert(split_white_space(seq![' ']) =~= Seq::<Seq<char>>::empty());
        assert(split_white_space(seq![' ', c]) =~= seq![seq![c]]);
    }
    if is_white_space(c) {
        assert(!is_separated(c));
        assert(spaced(s) =~= s);
    }
}

} // verus!

verus! {

/// Whether a text reads as one whole condition.
pub open spec fn whole_condition(c: Seq<char>) -> bool {
    &&& parse_condition_spec(tokens_of(c), 0) is Some
    &&& parse_condition_spec(tokens_of(c), 0).unwrap().1 == tokens_of(c).len()
}

/// The condition that a whole-condition text reads as.
pub open spec fn condition_of(c: Seq<char>) -> ConditionModel {
    parse_condition_spec(tokens_of(c), 0).unwrap().0
}

/// The tokens of `(c1 w c2)`, for a plain word `w`.
proof fn lemma_op_text_tokens(c1: Seq<char>, c2: Seq<char>, w: Seq<char>)
    requires
        plain_word(w),
    ensures
        tokens_of(seq!['('] + c1 + seq![' '] + w + seq![' '] + c2 + seq![')']) == seq!["("@]
            + tokens_of(c1) + seq![w] + tokens_of(c2) + seq![")"@],
{
    reveal_strlit("(");
    reveal_strlit(")");
    let sp = seq![' '];
    let op = seq!['('];
    let cp = seq![')'];
    assert("("@ =~= op);
    assert(")"@ =~= cp);
    lemma_single_tokens('(');
    lemma_single_tokens(')');
    lemma_single_tokens(' ');
    lemma_word_tokens(w);
    lemma_tokens_concat(op, c1);
    lemma_tokens_concat(op + c1, sp);
    lemma_tokens_concat(op + c1 + sp, w);
    lemma_tokens_concat(op + c1 + sp + w, sp);
    lemma_tokens_concat(op + c1 + sp + w + sp, c2);
    lemma_tokens_concat(op + c1 + sp + w + sp + c2, cp);
    assert(tokens_of(op + c1 + sp + w + sp + c2 + cp) =~= seq!["("@] + tokens_of(c1) + seq![w]
        + tokens_of(c2) + seq![")"@]);
}

/// The texts `(c1 AND c2)`, `(c1 OR c2)` and `(! c1)` read as And, Or and Not of what `c1`
/// and `c2` read as, the left part first, where `c1` and `c2` are whole conditions and the
/// first token of `c1` is not `!`.
pub proof fn lemma_text_compose(c1: Seq<char>, c2: Seq<char>)
    requires
        whole_condition(c1),
        whole_condition(c2),
        tokens_of(c1)[0] != "!"@,
    ensures
        ({
            let sp = seq![' '];
            let and_text = seq!['('] + c1 + sp + "AND"@ + sp + c2 + seq![')'];
            let or_text = seq!['('] + c1 + sp + "OR"@ + sp + c2 + seq![')'];
            let not_text = seq!['(', '!'] + sp + c1 + seq![')'];
            &&& whole_condition(and_text)
            &&& condition_of(and_text) == ConditionModel::And(
                Box::new(condition_of(c1)),
                Box::new(condition_of(c2)),
            )
            &&& whole_condition(or_text)
            &&& condition_of(or_text) == ConditionModel::Or(
                Box::new(condition_of(c1)),
                Box::new(condition_of(c2)),
            )
            &&& whole_condition(not_text)
            &&& condition_of(not_text) == ConditionModel::Not(Box::new(condition_of(c1)))
        }),
{
    reveal_strlit("AND");
    reveal_strlit("OR");
    reveal_strlit("(");
    reveal_strlit(")");
    reveal_strlit("!");
    let sp = seq![' '];
    let op = seq!['('];
    let cp = seq![')'];
    let t1 = tokens_of(c1);
    let t2 = tokens_of(c2);
    assert("("@ =~= op);
    assert(")"@ =~= cp);
    assert("!"@ =~= seq!['!']);
    lemma_single_tokens('(');
    lemma_single_tokens(')');
    lemma_single_tokens('!');
    lemma_single_tokens(' ');
    assert(plain_word("AND"@));
    assert(plain_word("OR"@));
    lemma_word_tokens("AND"@);
    lemma_word_tokens("OR"@);
    lemma_op_text_tokens(c1, c2, "AND"@);
    lemma_op_text_tokens(c1, c2, "OR"@);
    // (! c1)
    let not_text = seq!['(', '!'] + sp + c1 + cp;
    assert(seq!['(', '!'] =~= op + seq!['!']);
    lemma_tokens_concat(op, seq!['!']);
    lemma_tokens_concat(seq!['(', '!'], sp);
    lemma_tokens_concat(seq!['(', '!'] + sp, c1);
    lemma_tokens_concat(seq!['(', '!'] + sp + c1, cp);
    assert(tokens_of(not_text) =~= seq!["("@, "!"@] + t1 + seq![")"@]);
    lemma_parse_condition_compose(t1, t2);
}

/// `FILTER c GROUP BY g COUNT x` reads as the query with the condition `c` reads as,
/// grouped by the word `g`, counting the word `x`.
pub proof fn lemma_text_query(c: Seq<char>, g: Seq<char>, x: Seq<char>)
    requires
        whole_condition(c),
        plain_word(g),
        plain_word(x),
    ensures
        ({
            let sp = seq![' '];
            let text = "FILTER"@ + sp + c + sp + "GROUP"@ + sp + "BY"@ + sp + g + sp + "COUNT"@ + sp
                + x;
            parse_query_spec(tokens_of(text)) == Some(
                QueryModel {
                    filter: condition_of(c),
                    group_by: g,
                    aggregate: AggregationModel::Count(x),
                },
            )
        }),
{
    reveal_strlit("FILTER");
    reveal_strlit("GROUP");
    reveal_strlit("BY");
    reveal_strlit("COUNT");
    let sp = seq![' '];
    let f = "FILTER"@;
    let gr = "GROUP"@;
    let by = "BY"@;
    let co = "COUNT"@;
    assert(plain_word(f) && plain_word(gr) && plain_word(by) && plain_word(co));
    lemma_word_tokens(f);
    lemma_word_tokens(gr);
    lemma_word_tokens(by);
    lemma_word_tokens(co);
    lemma_word_tokens(g);
    lemma_word_tokens(x);
    lemma_single_tokens(' ');
    let p1 = f + sp;
    let p2 = p1 + c;
    let p3 = p2 + sp;
    let p4 = p3 + gr;
    let p5 = p4 + sp;
    let p6 = p5 + by;
    let p7 = p6 + sp;
    let p8 = p7 + g;
    let p9 = p8 + sp;
    let p10 = p9 + co;
    let p11 = p10 + sp;
    let p12 = p11 + x;
    lemma_tokens_concat(f, sp);
    lemma_tokens_concat(p1, c);
    lemma_tokens_concat(p2, sp);
    lemma_tokens_concat(p3, gr);
    lemma_tokens_concat(p4, sp);
    lemma_tokens_concat(p5, by);
    lemma_tokens_concat(p6, sp);
    lemma_tokens_concat(p7, g);
    lemma_tokens_concat(p8, sp);
    lemma_tokens_concat(p9, co);
    lemma_tokens_concat(p10, sp);
    lemma_tokens_concat(p11, x);
    let t = tokens_of(c);
    assert(tokens_of(p12) =~= seq![f] + t + seq![gr, by, g, co, x]);
    lemma_parse_query_filter(t, g, x);
}

} // verus!

verus! {

/// The tokens of `FILTER c GROUP BY g k x`, with single spaces between the parts, where
/// `g`, `k` and `x` are plain words.
proof fn lemma_query_text_tokens(c: Seq<char>, g: Seq<char>, k: Seq<char>, x: Seq<char>)
    requires
        plain_word(g),
        plain_word(k),
        plain_word(x),
    ensures
        ({
            let sp = seq![' '];
            tokens_of(
                "FILTER"@ + sp + c + sp + "GROUP"@ + sp + "BY"@ + sp + g + sp + k + sp + x,
            ) == seq!["FILTER"@] + tokens_of(c) + seq!["GROUP"@, "BY"@, g, k, x]
        }),
{
    reveal_strlit("FILTER");
    reveal_strlit("GROUP");
    reveal_strlit("BY");
    let sp = seq![' '];
    let f = "FILTER"@;
    let gr = "GROUP"@;
    let by = "BY"@;
    assert(plain_word(f) && plain_word(gr) && plain_word(by));
    lemma_word_tokens(f);
    lemma_word_tokens(gr);
    lemma_word_tokens(by);
    lemma_word_tokens(k);
    lemma_word_tokens(g);
    lemma_word_tokens(x);
    lemma_single_tokens(' ');
    let p1 = f + sp;
    let p2 = p1 + c;
    let p3 = p2 + sp;
    let p4 = p3 + gr;
    let p5 = p4 + sp;
    let p6 = p5 + by;
    let p7 = p6 + sp;
    let p8 = p7 + g;
    let p9 = p8 + sp;
    let p10 = p9 + k;
    let p11 = p10 + sp;
    let p12 = p11 + x;
    lemma_tokens_concat(f, sp);
    lemma_tokens_concat(p1, c);
    lemma_tokens_concat(p2, sp);
    lemma_tokens_concat(p3, gr);
    lemma_tokens_concat(p4, sp);
    lemma_tokens_concat(p5, by);
    lemma_tokens_concat(p6, sp);
    lemma_tokens_concat(p7, g);
    lemma_tokens_concat(p8, sp);
    lemma_tokens_concat(p9, k);
    lemma_tokens_concat(p10, sp);
    lemma_tokens_concat(p11, x);
    assert(tokens_of(p12) =~= seq![f] + tokens_of(c) + seq![gr, by, g, k, x]);
}

/// In the tokens `FILTER t GROUP BY g k x`, with `t` a whole condition, the condition read
/// after `FILTER` is that of `t` and ends where `GROUP` stands.
proof fn lemma_query_tokens_read(t: Seq<Seq<char>>, g: Seq<char>, k: Seq<char>, x: Seq<char>)
    requires
        parse_condition_spec(t, 0) is Some,
        parse_condition_spec(t, 0).unwrap().1 == t.len(),
    ensures
        ({
            let u = seq!["FILTER"@] + t + seq!["GROUP"@, "BY"@, g, k, x];
            let n = t.len() as int;
            &&& u.len() == n + 6
            &&& u[0] == "FILTER"@
            &&& parse_condition_spec(u, 1) == Some((parse_condition_spec(t, 0).unwrap().0, n + 1))
            &&& u[n + 1] == "GROUP"@
            &&& u[n + 2] == "BY"@
            &&& u[n + 3] == g
            &&& u[n + 4] == k
            &&& u[n + 5] == x
        }),
{
    let u = seq!["FILTER"@] + t + seq!["GROUP"@, "BY"@, g, k, x];
    let n = t.len() as int;
    assert forall|i: int| 0 <= i < n implies u[1 + i] == #[trigger] t[i] by {}
    lemma_parse_condition_shift(t, u, 1, 0);
    assert(u[0] == "FILTER"@);
    assert(u[n + 1] == "GROUP"@ && u[n + 2] == "BY"@ && u[n + 3] == g && u[n + 4] == k
        && u[n + 5] == x);
}

/// `FILTER c GROUP BY g SUM x` reads as the query with the condition `c` reads as, grouped
/// by the word `g`, summing the word `x`; with `AVERAGE` in place of `SUM` it averages `x`.
pub proof fn lemma_text_query_sum_average(c: Seq<char>, g: Seq<char>, x: Seq<char>)
    requires
        whole_condition(c),
        plain_word(g),
        plain_word(x),
    ensures
        ({
            let sp = seq![' '];
            let sum_text = "FILTER"@ + sp + c + sp + "GROUP"@ + sp + "BY"@ + sp + g + sp + "SUM"@
                + sp + x;
            let avg_text = "FILTER"@ + sp + c + sp + "GROUP"@ + sp + "BY"@ + sp + g + sp
                + "AVERAGE"@ + sp + x;
            &&& parse_query_spec(tokens_of(sum_text)) == Some(
                QueryModel {
                    filter: condition_of(c),
                    group_by: g,
                    aggregate: AggregationModel::Sum(x),
                },
            )
            &&& parse_query_spec(tokens_of(avg_text)) == Some(
                QueryModel {
                    filter: condition_of(c),
                    group_by: g,
                    aggregate: AggregationModel::Average(x),
                },
            )
        }),
{
    reveal_strlit("FILTER");
    reveal_strlit("GROUP");
    reveal_strlit("BY");
    reveal_strlit("COUNT");
    reveal_strlit("SUM");
    reveal_strlit("AVERAGE");
    let s = "SUM"@;
    let a = "AVERAGE"@;
    assert(plain_word(s) && plain_word(a));
    assert(s != "COUNT"@ && a != "COUNT"@ && a != s) by {
        assert(s.len() != "COUNT"@.len() && a.len() != "COUNT"@.len() && a.len() != s.len());
    }
    let t = tokens_of(c);
    lemma_query_text_tokens(c, g, s, x);
    lemma_query_text_tokens(c, g, a, x);
    lemma_query_tokens_read(t, g, s, x);
    lemma_query_tokens_read(t, g, a, x);
}

} // verus!
