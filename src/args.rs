use vstd::prelude::*;
use vstd::string::{StrSliceExecFns, StringExecFns};
use crate::interpreters::{Argument, Environment, Value};
use crate::text::push_char;

verus! {

/// The three operations the pipeline can run.
#[derive(Clone, Copy, PartialEq, Eq, Structural)]
pub enum FunctionName {
    MapEach,
    MapIndexed,
    Fold,
}

/// An operation with its snippet of backend code, and a fold's initial value.
pub enum Function {
    MapEach { code: String },
    MapIndexed { code: String },
    Fold { code: String, value: Argument },
}

/// Why the command line could not be read.
#[derive(Clone, Copy, PartialEq, Eq, Structural)]
pub enum ArgsError {
    /// No operation keyword was given.
    MissingOperation,
    /// `fold` was given without an initial value.
    MissingInitialValue,
}

/// The run's configuration.
pub struct Arguments {
    pub separator: String,
    pub function: Function,
    pub passtrough_on_error: bool,
    pub env: Environment,
}

/// The operation a keyword names.
pub open spec fn operation_named(s: Seq<char>) -> Option<FunctionName> {
    if s == seq!['m', 'a', 'p'] {
        Some(FunctionName::MapEach)
    } else if s == seq!['m', 'a', 'p', '-', 'i', 'n', 'd', 'e', 'x', 'e', 'd'] {
        Some(FunctionName::MapIndexed)
    } else if s == seq!['f', 'o', 'l', 'd'] {
        Some(FunctionName::Fold)
    } else {
        None
    }
}

/// A code word with each `#` standing for a double quote.
pub open spec fn unquoted(w: Seq<char>) -> Seq<char> {
    w.map_values(|c: char| if c == '#' { '"' } else { c })
}

/// Code words rejoined with single spaces between them.
pub open spec fn inline_code(words: Seq<Seq<char>>) -> Seq<char>
    decreases words.len(),
{
    if words.len() == 0 {
        seq![]
    } else if words.len() == 1 {
        unquoted(words[0])
    } else {
        inline_code(words.drop_last()) + seq![' '] + unquoted(words.last())
    }
}

pub open spec fn is_digit(c: char) -> bool {
    '0' <= c <= '9'
}

/// The value of a string of decimal digits.
pub open spec fn digits_value(s: Seq<char>) -> int
    decreases s.len(),
{
    if s.len() == 0 {
        0
    } else {
        digits_value(s.drop_last()) * 10 + (s.last() as int - '0' as int)
    }
}

pub open spec fn all_digits(s: Seq<char>) -> bool {
    s.len() > 0 && forall|i: int| 0 <= i < s.len() ==> is_digit(#[trigger] s[i])
}

/// The integer an optionally signed string of decimal digits denotes.
pub open spec fn integer_of(s: Seq<char>) -> Option<int> {
    if s.len() > 0 && s[0] == '-' && all_digits(s.skip(1)) {
        Some(-digits_value(s.skip(1)))
    } else if s.len() > 0 && s[0] == '+' && all_digits(s.skip(1)) {
        Some(digits_value(s.skip(1)))
    } else if all_digits(s) {
        Some(digits_value(s))
    } else {
        None
    }
}

/// An initial value: a 32-bit integer when the text is one, else the text.
pub open spec fn value_of(s: Seq<char>) -> Value {
    match integer_of(s) {
        Some(v) if i32::MIN <= v <= i32::MAX => Value::Number(v),
        _ => Value::Text(s),
    }
}

proof fn lemma_digits_nonneg(s: Seq<char>)
    requires
        forall|i: int| 0 <= i < s.len() ==> is_digit(#[trigger] s[i]),
    ensures
        digits_value(s) >= 0,
    decreases s.len(),
{
    if s.len() > 0 {
        lemma_digits_nonneg(s.drop_last());
    }
}

proof fn lemma_digits_prefix(s: Seq<char>, k: int)
    requires
        0 <= k <= s.len(),
        forall|i: int| 0 <= i < s.len() ==> is_digit(#[trigger] s[i]),
    ensures
        digits_value(s.subrange(0, k)) <= digits_value(s),
    decreases s.len(),
{
    if k < s.len() {
        lemma_digits_prefix(s.drop_last(), k);
        lemma_digits_nonneg(s.drop_last());
        assert(s.drop_last().subrange(0, k) =~= s.subrange(0, k));
    } else {
        assert(s.subrange(0, k) =~= s);
    }
}

/// Text equality of two strings.
fn same_text(a: &str, b: &str) -> (r: bool)
    ensures
        r == (a@ == b@),
{
    let n = a.unicode_len();
    if n != b.unicode_len() {
        return false;
    }
    let mut i: usize = 0;
    while i < n
        invariant
            n == a@.len() == b@.len(),
            i <= n,
            forall|j: int| 0 <= j < i ==> a@[j] == b@[j],
        decreases n - i,
    {
        if a.get_char(i) != b.get_char(i) {
            return false;
        }
        i = i + 1;
    }
    assert(a@ =~= b@);
    true
}

/// The value of the digits of `s` from `start` on, when that text is all
/// digits and its value at most `bound`.
fn digits_at_most(s: &str, start: usize, bound: i64) -> (r: Option<i64>)
    requires
        0 <= bound <= i64::MAX / 10 - 10,
    ensures
        r matches Some(v) ==> start <= s@.len() && all_digits(s@.skip(start as int)) && v
            == digits_value(s@.skip(start as int)) && 0 <= v <= bound,
        r is None ==> !(start <= s@.len() && all_digits(s@.skip(start as int)) && digits_value(
            s@.skip(start as int),
        ) <= bound),
{
    let n = s.unicode_len();
    if start >= n {
        return None;
    }
    let ghost t = s@.skip(start as int);
    let mut acc: i64 = 0;
    let mut i: usize = start;
    while i < n
        invariant
            n == s@.len(),
            start < n,
            start <= i <= n,
            t == s@.skip(start as int),
            0 <= bound <= i64::MAX / 10 - 10,
            forall|j: int| 0 <= j < i - start ==> is_digit(#[trigger] t[j]),
            acc == digits_value(t.subrange(0, i - start)),
            0 <= acc <= bound,
        decreases n - i,
    {
        let c = s.get_char(i);
        if !('0' <= c && c <= '9') {
            assert(!is_digit(t[i - start]));
            return None;
        }
        let d = (c as u32 - '0' as u32) as i64;
        let ghost pre = t.subrange(0, i - start);
        assert(t.subrange(0, i + 1 - start).drop_last() =~= pre);
        acc = acc * 10 + d;
        i = i + 1;
        if acc > bound {
            proof {
                if all_digits(t) {
                    lemma_digits_prefix(t, i - start);
                }
            }
            return None;
        }
    }
    assert(t.subrange(0, n - start) =~= t);
    Some(acc)
}

/// The 32-bit integer that `s` denotes, if any: an optional sign, then one or
/// more decimal digits.
fn parse_i32(s: &str) -> (r: Option<i64>)
    ensures
        r matches Some(v) ==> integer_of(s@) == Some(v as int) && i32::MIN <= v <= i32::MAX,
        r is None ==> !(integer_of(s@) matches Some(v) && i32::MIN <= v <= i32::MAX),
{
    let n = s.unicode_len();
    if n == 0 {
        return None;
    }
    let c = s.get_char(0);
    assert(!is_digit(s@[0]) ==> !all_digits(s@));
    if c == '-' {
        match digits_at_most(s, 1, 2147483648) {
            Some(v) => Some(-v),
            None => None,
        }
    } else if c == '+' {
        digits_at_most(s, 1, 2147483647)
    } else {
        let r = digits_at_most(s, 0, 2147483647);
        assert(s@.skip(0) =~= s@);
        r
    }
}

impl Function {
    /// The operation a command-line keyword names.
    pub fn name_from_string(value: &str) -> (r: Option<FunctionName>)
        ensures
            r == operation_named(value@),
    {
        proof {
            reveal_strlit("map");
            reveal_strlit("map-indexed");
            reveal_strlit("fold");
        }
        if same_text(value, "map") {
            assert("map"@ =~= seq!['m', 'a', 'p']);
            Some(FunctionName::MapEach)
        } else if same_text(value, "map-indexed") {
            assert("map-indexed"@ =~= seq!['m', 'a', 'p', '-', 'i', 'n', 'd', 'e', 'x', 'e', 'd']);
            assert(value@ != seq!['m', 'a', 'p']);
            Some(FunctionName::MapIndexed)
        } else if same_text(value, "fold") {
            assert("fold"@ =~= seq!['f', 'o', 'l', 'd']);
            Some(FunctionName::Fold)
        } else {
            assert("map"@ =~= seq!['m', 'a', 'p']);
            assert("map-indexed"@ =~= seq!['m', 'a', 'p', '-', 'i', 'n', 'd', 'e', 'x', 'e', 'd']);
            assert("fold"@ =~= seq!['f', 'o', 'l', 'd']);
            None
        }
    }

    /// The operation this function runs.
    pub fn name(&self) -> (r: FunctionName)
        ensures
            r == self.spec_name(),
    {
        match self {
            Function::MapEach { .. } => FunctionName::MapEach,
            Function::MapIndexed { .. } => FunctionName::MapIndexed,
            Function::Fold { .. } => FunctionName::Fold,
        }
    }

    pub open spec fn spec_name(&self) -> FunctionName {
        match self {
            Function::MapEach { .. } => FunctionName::MapEach,
            Function::MapIndexed { .. } => FunctionName::MapIndexed,
            Function::Fold { .. } => FunctionName::Fold,
        }
    }

    /// The snippet of backend code.
    pub open spec fn spec_code(&self) -> Seq<char> {
        match self {
            Function::MapEach { code } => code@,
            Function::MapIndexed { code } => code@,
            Function::Fold { code, .. } => code@,
        }
    }

    /// The code words from index `from` on, rejoined with spaces.
    fn parse_inline_code(words: &Vec<String>, from: usize) -> (r: String)
        requires
            from <= words@.len(),
        ensures
            r@ == inline_code(texts(words@).skip(from as int)),
    {
        let mut inline = String::new();
        let mut k: usize = from;
        while k < words.len()
            invariant
                from <= k <= words@.len(),
                inline@ == inline_code(texts(words@).subrange(from as int, k as int)),
            decreases words@.len() - k,
        {
            let w = words[k].as_str();
            let n = w.unicode_len();
            let mut i: usize = 0;
            if k > from {
                push_char(&mut inline, ' ');
            }
            let ghost start = inline@;
            while i < n
                invariant
                    n == w@.len(),
                    i <= n,
                    inline@ == start + unquoted(w@).subrange(0, i as int),
                decreases n - i,
            {
                let c = w.get_char(i);
                push_char(&mut inline, if c == '#' { '"' } else { c });
                i = i + 1;
                assert(inline@ =~= start + unquoted(w@).subrange(0, i as int));
            }
            proof {
                let ws = texts(words@).subrange(from as int, k + 1);
                assert(ws.drop_last() =~= texts(words@).subrange(from as int, k as int));
                assert(ws.last() == w@);
                assert(unquoted(w@).subrange(0, n as int) =~= unquoted(w@));
            }
            k = k + 1;
        }
        assert(texts(words@).subrange(from as int, words@.len() as int) =~= texts(words@).skip(
            from as int,
        ));
        inline
    }

    /// An initial value: a 32-bit integer when the text is one, else the text.
    pub fn parse_value(s: &String) -> (r: Argument)
        ensures
            r@ == value_of(s@),
    {
        match parse_i32(s.as_str()) {
            Some(v) => Argument::Number(v),
            None => Argument::String(s.clone()),
        }
    }

    /// The function for operation `name`, its words taken from index `from` on;
    /// `None` when a fold has no initial value.
    pub fn parse_arguments(name: FunctionName, words: &Vec<String>, from: usize) -> (r: Option<
        Function,
    >)
        requires
            from <= words@.len(),
        ensures
            r is None <==> (name == FunctionName::Fold && from == words@.len()),
            r matches Some(f) ==> f.spec_name() == name && f.spec_code() == (if name
                == FunctionName::Fold {
                inline_code(texts(words@).skip(from + 1))
            } else {
                inline_code(texts(words@).skip(from as int))
            }),
            r matches Some(Function::Fold { value, .. }) ==> value@ == value_of(words@[from as int]@),
    {
        match name {
            FunctionName::MapEach => Some(Function::MapEach { code: Function::parse_inline_code(words, from) }),
            FunctionName::MapIndexed => Some(
                Function::MapIndexed { code: Function::parse_inline_code(words, from) },
            ),
            FunctionName::Fold => {
                if from >= words.len() {
                    return None;
                }
                let initial = Function::parse_value(&words[from]);
                let inline = Function::parse_inline_code(words, from + 1);
                Some(Function::Fold { code: inline, value: initial })
            },
        }
    }
}

/// The text of each string.
pub open spec fn texts(v: Seq<String>) -> Seq<Seq<char>> {
    v.map_values(|s: String| s@)
}

/// Index of the first operation keyword at or after `k`, or -1.
pub open spec fn first_operation(ws: Seq<Seq<char>>, k: int) -> int
    decreases ws.len() - k,
{
    if k < 0 || k >= ws.len() {
        -1
    } else if operation_named(ws[k]) is Some {
        k
    } else {
        first_operation(ws, k + 1)
    }
}

/// Whether flag `f` stands among the first `k` words.
pub open spec fn flag_before(ws: Seq<Seq<char>>, k: int, f: Seq<char>) -> bool {
    exists|j: int| 0 <= j < k && ws[j] == f
}

/// Reads the command line: flags `-w`, `-d` and `-p` before the first
/// operation keyword, then that operation's own words.
pub fn parse_arguments(argv: &Vec<String>) -> (r: Result<Arguments, ArgsError>)
    ensures
        ({
            let ws = texts(argv@);
            let i = first_operation(ws, 0);
            if i < 0 {
                r == Err::<Arguments, ArgsError>(ArgsError::MissingOperation)
            } else if operation_named(ws[i]) == Some(FunctionName::Fold) && i + 1 == ws.len() {
                r == Err::<Arguments, ArgsError>(ArgsError::MissingInitialValue)
            } else {
                r matches Ok(a) && {
                    let name = operation_named(ws[i])->Some_0;
                    &&& a.function.spec_name() == name
                    &&& a.function.spec_code() == (if name == FunctionName::Fold {
                        inline_code(ws.skip(i + 2))
                    } else {
                        inline_code(ws.skip(i + 1))
                    })
                    &&& (a.function matches Function::Fold { value, .. } ==> value@ == value_of(
                        ws[i + 1],
                    ))
                    &&& a.separator@ == (if flag_before(ws, i, seq!['-', 'w']) {
                        seq![' ']
                    } else {
                        seq!['\n']
                    })
                    &&& a.passtrough_on_error == !flag_before(ws, i, seq!['-', 'p'])
                    &&& a.env.declaration_debug == flag_before(ws, i, seq!['-', 'd'])
                }
            }
        }),
{
    let ghost ws = texts(argv@);
    let mut wide = false;
    let mut declaration_debug = false;
    let mut passtrough_on_error = true;
    proof {
        reveal_strlit("-w");
        reveal_strlit("-d");
        reveal_strlit("-p");
        assert("-w"@ =~= seq!['-', 'w']);
        assert("-d"@ =~= seq!['-', 'd']);
        assert("-p"@ =~= seq!['-', 'p']);
    }
    let mut i: usize = 0;
    while i < argv.len()
        invariant
            ws == texts(argv@),
            i <= argv@.len(),
            first_operation(ws, 0) == first_operation(ws, i as int),
            wide == flag_before(ws, i as int, seq!['-', 'w']),
            declaration_debug == flag_before(ws, i as int, seq!['-', 'd']),
            passtrough_on_error == !flag_before(ws, i as int, seq!['-', 'p']),
            "-w"@ == seq!['-', 'w'],
            "-d"@ == seq!['-', 'd'],
            "-p"@ == seq!['-', 'p'],
        decreases argv@.len() - i,
    {
        let word = argv[i].as_str();
        assert(word@ == ws[i as int]);
        match Function::name_from_string(word) {
            Some(name) => {
                assert(first_operation(ws, i as int) == i);
                let function = match Function::parse_arguments(name, argv, i + 1) {
                    Some(f) => f,
                    None => return Err(ArgsError::MissingInitialValue),
                };
                let mut separator = String::new();
                if wide {
                    push_char(&mut separator, ' ');
                } else {
                    push_char(&mut separator, '\n');
                }
                assert(texts(argv@).skip(i + 1) =~= ws.skip(i + 1));
                assert(texts(argv@).skip(i + 2) =~= ws.skip(i + 2));
                return Ok(
                    Arguments {
                        separator,
                        function,
                        passtrough_on_error,
                        env: Environment { declaration_debug },
                    },
                );
            },
            None => {
                let is_w = same_text(word, "-w");
                let is_d = same_text(word, "-d");
                let is_p = same_text(word, "-p");
                proof {
                    assert forall|f: Seq<char>| flag_before(ws, i + 1, f) == (flag_before(ws, i as int, f) || ws[i as int] == f) by {
                        if flag_before(ws, i + 1, f) && !flag_before(ws, i as int, f) {
                            let j = choose|j: int| 0 <= j < i + 1 && ws[j] == f;
                            assert(j == i);
                        }
                        if ws[i as int] == f {
                            assert(0 <= i < i + 1 && ws[i as int] == f);
                        }
                    }
                }
                if is_w {
                    wide = true;
                }
                if is_d {
                    declaration_debug = true;
                }
                if is_p {
                    passtrough_on_error = false;
                }
            },
        }
        i = i + 1;
    }
    Err(ArgsError::MissingOperation)
}

} // verus!
