//! Filter queries: words that a line must hold, and conditions on its fields.

use vstd::prelude::*;
use vstd::utf8::encode_utf8;

use crate::schema::{column_names, Schema};
use crate::text::{eq_ascii_ci, fold, same_fold, to_chars, to_text};

verus! {

/// How a field is compared.
#[derive(Debug, Clone, Copy, PartialEq, Eq, Structural)]
pub enum Op {
    /// `=`: the same text, whatever the case of ASCII letters.
    Eq,
    /// `=` with `*` at the end: the text begins so, whatever the case of ASCII
    /// letters.
    Prefix,
    /// `>`: a greater number.
    Gt,
    /// `>=`: a number that is not less.
    GtEq,
    /// `<`: a lesser number.
    Lt,
    /// `<=`: a number that is not greater.
    LtEq,
}

/// One condition of a query.
#[derive(Debug, Clone, PartialEq)]
pub enum Clause {
    /// A field is compared with a value.
    Field {
        /// The keys that lead to the field, from the outermost object inwards.
        path: Vec<String>,
        /// How to compare.
        op: Op,
        /// The value to compare with.
        value: String,
    },
    /// The line holds a word, whatever the case of ASCII letters.
    Bare(String),
}

/// What a condition is.
pub enum ClauseView {
    Field { path: Seq<Seq<char>>, op: Op, value: Seq<char> },
    Bare(Seq<char>),
}

/// The texts of some strings.
pub open spec fn texts(strings: Seq<String>) -> Seq<Seq<char>> {
    strings.map_values(|s: String| s@)
}

impl View for Clause {
    type V = ClauseView;

    open spec fn view(&self) -> ClauseView {
        match self {
            Clause::Field { path, op, value } => ClauseView::Field {
                path: texts(path@),
                op: *op,
                value: value@,
            },
            Clause::Bare(word) => ClauseView::Bare(word@),
        }
    }
}

/// What some conditions are.
pub open spec fn clause_views(clauses: Seq<Clause>) -> Seq<ClauseView> {
    clauses.map_values(|c: Clause| c@)
}

/// A character with the Unicode property `White_Space`.
pub open spec fn is_white(c: char) -> bool {
    let n = c as u32;
    ||| 0x09 <= n <= 0x0D
    ||| n == 0x20
    ||| n == 0x85
    ||| n == 0xA0
    ||| n == 0x1680
    ||| 0x2000 <= n <= 0x200A
    ||| n == 0x2028
    ||| n == 0x2029
    ||| n == 0x202F
    ||| n == 0x205F
    ||| n == 0x3000
}

/// What parts a text.
#[derive(Clone, Copy)]
pub enum Separator {
    /// White space.
    White,
    /// The full stop.
    Stop,
}

/// The character parts a text.
pub open spec fn parts(separator: Separator, c: char) -> bool {
    match separator {
        Separator::White => is_white(c),
        Separator::Stop => c == '.',
    }
}

/// The longest runs of characters without a separator, in turn.
pub open spec fn runs(text: Seq<char>, separator: Separator) -> Seq<Seq<char>>
    decreases text.len(),
{
    if text.len() == 0 {
        Seq::empty()
    } else {
        let before = text.drop_last();
        let init = runs(before, separator);
        let c = text.last();
        if parts(separator, c) {
            init
        } else if before.len() > 0 && !parts(separator, before.last()) {
            init.update(init.len() - 1, init.last().push(c))
        } else {
            init.push(seq![c])
        }
    }
}

/// The first place at or behind `from` at which `pattern` stands in a text.
pub open spec fn find_from(text: Seq<char>, pattern: Seq<char>, from: int) -> Option<int>
    decreases text.len() + 1 - from,
{
    if from + pattern.len() > text.len() {
        None
    } else if text.subrange(from, from + pattern.len()) == pattern {
        Some(from)
    } else {
        find_from(text, pattern, from + 1)
    }
}

/// The signs of comparison in the order in which they are looked for: the longer
/// ones first.
pub open spec fn signs() -> Seq<(Seq<char>, Op)> {
    seq![
        (seq!['>', '='], Op::GtEq),
        (seq!['<', '='], Op::LtEq),
        (seq!['>'], Op::Gt),
        (seq!['<'], Op::Lt),
        (seq!['='], Op::Eq),
    ]
}

/// A word parted at a sign of comparison: what stands before it, how it compares,
/// and what stands behind it. The first sign, from the `k`-th on, that stands in the
/// word at all parts it, at its first place.
pub open spec fn split_from(word: Seq<char>, k: int) -> Option<(Seq<char>, Op, Seq<char>)>
    decreases signs().len() - k,
{
    if k >= signs().len() {
        None
    } else {
        match find_from(word, signs()[k].0, 0) {
            Some(p) => Some((word.take(p), signs()[k].1, word.skip(p + signs()[k].0.len()))),
            None => split_from(word, k + 1),
        }
    }
}

/// The condition that a word states. Without a sign of comparison, or without a key
/// before it, it is a word to look for.
pub open spec fn clause_of(word: Seq<char>) -> ClauseView {
    match split_from(word, 0) {
        None => ClauseView::Bare(word),
        Some((keys, op, value)) => {
            let path = runs(keys, Separator::Stop);
            if path.len() == 0 {
                ClauseView::Bare(word)
            } else if op is Eq && value.len() > 0 && value.last() == '*' {
                ClauseView::Field { path, op: Op::Prefix, value: value.drop_last() }
            } else {
                ClauseView::Field { path, op, value }
            }
        },
    }
}

/// The conditions that a query states, one for each word.
pub open spec fn clauses_of(query: Seq<char>) -> Seq<ClauseView> {
    runs(query, Separator::White).map_values(|word: Seq<char>| clause_of(word))
}

fn is_separator(separator: Separator, c: char) -> (out: bool)
    ensures
        out == parts(separator, c),
{
    match separator {
        Separator::White => {
            let n: u32 = c as u32;
            (0x09 <= n && n <= 0x0D) || n == 0x20 || n == 0x85 || n == 0xA0 || n == 0x1680 || (
            0x2000 <= n && n <= 0x200A) || n == 0x2028 || n == 0x2029 || n == 0x202F || n == 0x205F
                || n == 0x3000
        },
        Separator::Stop => c == '.',
    }
}

/// The contents of some vectors of characters.
pub open spec fn char_views(words: Seq<Vec<char>>) -> Seq<Seq<char>> {
    words.map_values(|w: Vec<char>| w@)
}

fn split_runs(text: &[char], separator: Separator) -> (out: Vec<Vec<char>>)
    ensures
        char_views(out@) == runs(text@, separator),
{
    let mut words: Vec<Vec<char>> = Vec::new();
    let mut i: usize = 0;
    let mut open: bool = false;
    assert(char_views(words@) =~= runs(text@.take(0), separator));
    while i < text.len()
        invariant
            i <= text@.len(),
            char_views(words@) == runs(text@.take(i as int), separator),
            open == (i > 0 && !parts(separator, text@[i - 1])),
            open ==> words@.len() > 0,
        decreases text@.len() - i,
    {
        let c: char = text[i];
        let ghost before = words@;
        proof {
            assert(text@.take(i + 1).drop_last() =~= text@.take(i as int));
        }
        if is_separator(separator, c) {
            open = false;
        } else if open {
            match words.pop() {
                Some(word) => {
                    let mut word = word;
                    word.push(c);
                    words.push(word);
                    assert(char_views(words@) =~= char_views(before).update(
                        before.len() - 1,
                        char_views(before).last().push(c),
                    ));
                },
                None => {},
            }
        } else {
            let mut word: Vec<char> = Vec::new();
            word.push(c);
            assert(word@ =~= seq![c]);
            words.push(word);
            assert(char_views(words@) =~= char_views(before).push(seq![c]));
            open = true;
        }
        i = i + 1;
    }
    assert(text@.take(i as int) =~= text@);
    words
}

fn find_pattern(text: &[char], pattern: &[char]) -> (out: Option<usize>)
    requires
        pattern@.len() > 0,
    ensures
        match out {
            Some(p) => find_from(text@, pattern@, 0) == Some(p as int) && p + pattern@.len()
                <= text@.len(),
            None => find_from(text@, pattern@, 0) is None,
        },
{
    let len: usize = text.len();
    let mut from: usize = 0;
    while from < len && pattern.len() <= len - from
        invariant
            len == text@.len(),
            from <= len,
            pattern@.len() > 0,
            find_from(text@, pattern@, from as int) == find_from(text@, pattern@, 0),
        decreases len - from,
    {
        let mut j: usize = 0;
        while j < pattern.len() && text[from + j] == pattern[j]
            invariant
                len == text@.len(),
                from + pattern@.len() <= len,
                j <= pattern@.len(),
                forall|k: int| 0 <= k < j ==> text@[from + k] == #[trigger] pattern@[k],
            decreases pattern@.len() - j,
        {
            j = j + 1;
        }
        let ghost here = text@.subrange(from as int, from + pattern@.len());
        if j == pattern.len() {
            assert(here =~= pattern@);
            return Some(from);
        }
        assert(here[j as int] != pattern@[j as int]);
        from = from + 1;
    }
    None
}

/// Parts a word at its sign of comparison.
fn split_operator<'a>(word: &'a [char]) -> (out: Option<(&'a [char], Op, &'a [char])>)
    ensures
        match out {
            Some((keys, op, value)) => split_from(word@, 0) == Some((keys@, op, value@)),
            None => split_from(word@, 0) is None,
        },
{
    let ge: [char; 2] = ['>', '='];
    let le: [char; 2] = ['<', '='];
    let gt: [char; 1] = ['>'];
    let lt: [char; 1] = ['<'];
    let eq: [char; 1] = ['='];
    assert(ge@ =~= signs()[0].0);
    assert(le@ =~= signs()[1].0);
    assert(gt@ =~= signs()[2].0);
    assert(lt@ =~= signs()[3].0);
    assert(eq@ =~= signs()[4].0);
    proof {
        reveal_with_fuel(split_from, 6);
    }
    if let Some(p) = find_pattern(word, &ge) {
        return Some(cut(word, p, 2, Op::GtEq));
    }
    if let Some(p) = find_pattern(word, &le) {
        return Some(cut(word, p, 2, Op::LtEq));
    }
    if let Some(p) = find_pattern(word, &gt) {
        return Some(cut(word, p, 1, Op::Gt));
    }
    if let Some(p) = find_pattern(word, &lt) {
        return Some(cut(word, p, 1, Op::Lt));
    }
    if let Some(p) = find_pattern(word, &eq) {
        return Some(cut(word, p, 1, Op::Eq));
    }
    None
}

fn cut<'a>(word: &'a [char], p: usize, width: usize, op: Op) -> (out: (
    &'a [char],
    Op,
    &'a [char],
))
    requires
        p + width <= word@.len(),
    ensures
        out.0@ == word@.take(p as int),
        out.1 == op,
        out.2@ == word@.skip(p + width),
{
    let len: usize = word.len();
    let before = &word[0..p];
    let behind = &word[p + width..len];
    assert(before@ =~= word@.take(p as int));
    assert(behind@ =~= word@.skip(p + width));
    (before, op, behind)
}

fn to_texts(words: &Vec<Vec<char>>) -> (out: Vec<String>)
    ensures
        texts(out@) == char_views(words@),
{
    let mut out: Vec<String> = Vec::new();
    let mut i: usize = 0;
    while i < words.len()
        invariant
            i <= words@.len(),
            out@.len() == i,
            forall|k: int| 0 <= k < i ==> (#[trigger] out@[k])@ == words@[k]@,
        decreases words@.len() - i,
    {
        out.push(to_text(words[i].as_slice()));
        i = i + 1;
    }
    assert(texts(out@) =~= char_views(words@));
    out
}

/// The condition that a word states.
pub fn parse_clause(tok: &str) -> (out: Clause)
    ensures
        out@ == clause_of(tok@),
{
    let chars: Vec<char> = to_chars(tok);
    clause_of_word(chars.as_slice())
}

fn clause_of_word(word: &[char]) -> (out: Clause)
    ensures
        out@ == clause_of(word@),
{
    match split_operator(word) {
        None => Clause::Bare(to_text(word)),
        Some((keys, op, value)) => {
            let parts = split_runs(keys, Separator::Stop);
            assert(parts@.len() == runs(keys@, Separator::Stop).len());
            if parts.len() == 0 {
                return Clause::Bare(to_text(word));
            }
            let path = to_texts(&parts);
            if op == Op::Eq && value.len() > 0 && value[value.len() - 1] == '*' {
                let prefix = &value[0..value.len() - 1];
                assert(prefix@ =~= value@.drop_last());
                return Clause::Field { path, op: Op::Prefix, value: to_text(prefix) };
            }
            Clause::Field { path, op, value: to_text(value) }
        },
    }
}

/// Reads a query: words parted by white space, each one a condition that a line must
/// meet.
pub fn parse_query(q: &str) -> (out: Vec<Clause>)
    ensures
        clause_views(out@) == clauses_of(q@),
{
    let chars: Vec<char> = to_chars(q);
    let words = split_runs(chars.as_slice(), Separator::White);
    let ghost runs_of_q = runs(q@, Separator::White);
    let mut clauses: Vec<Clause> = Vec::new();
    let mut i: usize = 0;
    while i < words.len()
        invariant
            i <= words@.len(),
            char_views(words@) == runs_of_q,
            clauses@.len() == i,
            forall|k: int| 0 <= k < i ==> (#[trigger] clauses@[k])@ == clause_of(runs_of_q[k]),
        decreases words@.len() - i,
    {
        assert(char_views(words@)[i as int] == words@[i as int]@);
        clauses.push(clause_of_word(words[i].as_slice()));
        i = i + 1;
    }
    assert(clause_views(clauses@) =~= clauses_of(q@));
    clauses
}

/// The first of some names that is `name`, but for the case of ASCII letters, from
/// the `k`-th on.
pub open spec fn named_like(names: Seq<Seq<char>>, name: Seq<char>, k: int) -> Option<Seq<char>>
    decreases names.len() - k,
{
    if k >= names.len() {
        None
    } else if same_fold(encode_utf8(names[k]), encode_utf8(name)) {
        Some(names[k])
    } else {
        named_like(names, name, k + 1)
    }
}

/// A condition with its key written as the column of that name is. A path of several
/// keys, and a key without a column, stay as they are.
pub open spec fn normalized(clause: ClauseView, names: Seq<Seq<char>>) -> ClauseView {
    match clause {
        ClauseView::Field { path, op, value } => if path.len() == 1 {
            match named_like(names, path[0], 0) {
                Some(name) => ClauseView::Field { path: seq![name], op, value },
                None => clause,
            }
        } else {
            clause
        },
        ClauseView::Bare(_) => clause,
    }
}

fn column_like(schema: &Schema, name: &String) -> (out: Option<usize>)
    ensures
        match out {
            Some(k) => k < schema.columns@.len() && named_like(
                column_names(schema.columns@),
                name@,
                0,
            ) == Some(schema.columns@[k as int].name@),
            None => named_like(column_names(schema.columns@), name@, 0) is None,
        },
{
    let ghost names = column_names(schema.columns@);
    let mut k: usize = 0;
    while k < schema.columns.len()
        invariant
            names == column_names(schema.columns@),
            k <= names.len(),
            named_like(names, name@, k as int) == named_like(names, name@, 0),
        decreases names.len() - k,
    {
        assert(names[k as int] == schema.columns@[k as int].name@);
        let column: &str = schema.columns[k].name.as_str();
        if eq_ascii_ci(column.as_bytes(), name.as_str().as_bytes()) {
            return Some(k);
        }
        k = k + 1;
    }
    None
}

fn normalize_clause(clause: &Clause, schema: &Schema) -> (out: Option<Clause>)
    ensures
        match out {
            Some(c) => c@ == normalized(clause@, column_names(schema.columns@)),
            None => clause@ == normalized(clause@, column_names(schema.columns@)),
        },
{
    match clause {
        Clause::Field { path, op, value } => {
            if path.len() == 1 {
                assert(texts(path@)[0] == path@[0]@);
                if let Some(k) = column_like(schema, &path[0]) {
                    let name: String = schema.columns[k].name.clone();
                    let mut keys: Vec<String> = Vec::new();
                    keys.push(name);
                    assert(texts(keys@) =~= seq![name@]);
                    return Some(Clause::Field { path: keys, op: *op, value: value.clone() });
                }
            }
            None
        },
        Clause::Bare(_) => None,
    }
}

/// Writes the keys of conditions as the columns are written, so that a key is found
/// whatever its case. Nested keys stay as they are, and so does a key without a
/// column.
pub fn normalize_clause_keys(clauses: &mut [Clause], schema: &Schema)
    ensures
        clause_views(final(clauses)@) == clause_views(old(clauses)@).map_values(
            |c: ClauseView| normalized(c, column_names(schema.columns@)),
        ),
{
    let ghost names = column_names(schema.columns@);
    let ghost before = clauses@;
    let mut i: usize = 0;
    while i < clauses.len()
        invariant
            names == column_names(schema.columns@),
            i <= clauses@.len(),
            clauses@.len() == before.len(),
            forall|k: int| 0 <= k < i ==> (#[trigger] clauses@[k])@ == normalized(before[k]@, names),
            forall|k: int| i <= k < before.len() ==> #[trigger] clauses@[k] == before[k],
        decreases before.len() - i,
    {
        if let Some(clause) = normalize_clause(&clauses[i], schema) {
            clauses[i] = clause;
        }
        i = i + 1;
    }
    assert(clause_views(clauses@) =~= clause_views(before).map_values(
        |c: ClauseView| normalized(c, names),
    ));
}

proof fn lemma_named_like(names: Seq<Seq<char>>, name: Seq<char>, k: int)
    ensures
        named_like(names, name, k) matches Some(n) ==> same_fold(encode_utf8(n), encode_utf8(name))
            && named_like(names, n, k) == Some(n),
    decreases names.len() - k,
{
    if k < names.len() && !same_fold(encode_utf8(names[k]), encode_utf8(name)) {
        lemma_named_like(names, name, k + 1);
        if let Some(n) = named_like(names, name, k + 1) {
            let (a, b, c) = (encode_utf8(names[k]), encode_utf8(n), encode_utf8(name));
            if same_fold(a, b) {
                assert forall|i: int| 0 <= i < a.len() implies fold(#[trigger] a[i])
                    == fold(c[i]) by {
                    assert(fold(b[i]) == fold(c[i]));
                }
            }
        }
    }
}

/// Writing keys as the columns are written changes nothing where it was done before.
pub proof fn lemma_normalized_twice(clause: ClauseView, names: Seq<Seq<char>>)
    ensures
        normalized(normalized(clause, names), names) == normalized(clause, names),
{
    if let ClauseView::Field { path, op, value } = clause {
        if path.len() == 1 {
            lemma_named_like(names, path[0], 0);
        }
    }
}

/// The words of a query are not empty and hold no white space, and the keys of a path
/// are not empty and hold no full stop.
pub proof fn lemma_runs(text: Seq<char>, separator: Separator)
    ensures
        forall|k: int| 0 <= k < runs(text, separator).len() ==> (#[trigger] runs(
            text,
            separator,
        )[k]).len() > 0,
        forall|k: int, i: int|
            0 <= k < runs(text, separator).len() && 0 <= i < runs(text, separator)[k].len()
                ==> !parts(separator, #[trigger] runs(text, separator)[k][i]),
        text.len() > 0 && !parts(separator, text.last()) ==> runs(text, separator).len() > 0,
    decreases text.len(),
{
    if text.len() > 0 {
        let before = runs(text.drop_last(), separator);
        let all = runs(text, separator);
        lemma_runs(text.drop_last(), separator);
        assert forall|k: int| 0 <= k < all.len() implies (#[trigger] all[k]).len() > 0 by {
            if k < before.len() {
                assert(before[k].len() > 0);
            }
        }
        assert forall|k: int, i: int|
            0 <= k < all.len() && 0 <= i < all[k].len() implies !parts(
            separator,
            #[trigger] all[k][i],
        ) by {
            if k < before.len() && i < before[k].len() {
                assert(!parts(separator, before[k][i]));
            }
        }
    }
}

/// The place of the sign of an operator among those that are looked for.
pub open spec fn sign_index(op: Op) -> int {
    match op {
        Op::GtEq => 0,
        Op::LtEq => 1,
        Op::Gt => 2,
        Op::Lt => 3,
        _ => 4,
    }
}

/// Keys with a full stop between them.
pub open spec fn joined_keys(path: Seq<Seq<char>>) -> Seq<char>
    decreases path.len(),
{
    if path.len() == 0 {
        Seq::empty()
    } else if path.len() == 1 {
        path[0]
    } else {
        joined_keys(path.drop_last()) + seq!['.'] + path.last()
    }
}

/// A condition on a field as a word of a query.
pub open spec fn printed(path: Seq<Seq<char>>, op: Op, value: Seq<char>) -> Seq<char> {
    joined_keys(path) + signs()[sign_index(op)].0 + value + if op is Prefix {
        seq!['*']
    } else {
        Seq::empty()
    }
}

/// `pattern` stands in a text at `p`.
pub open spec fn stands_in(text: Seq<char>, pattern: Seq<char>, p: int) -> bool {
    0 <= p && p + pattern.len() <= text.len() && text.subrange(p, p + pattern.len()) == pattern
}

/// The sign of an operator is what parts a word at `p`: it does not stand before that
/// place, and no sign that is looked for before it stands in the word at all.
pub open spec fn is_parted_at(word: Seq<char>, op: Op, p: int) -> bool {
    &&& stands_in(word, signs()[sign_index(op)].0, p)
    &&& forall|q: int| 0 <= q < p ==> !#[trigger] stands_in(word, signs()[sign_index(op)].0, q)
    &&& forall|k: int, q: int|
        0 <= k < sign_index(op) ==> !#[trigger] stands_in(word, signs()[k].0, q)
}

/// The character is part of no sign of comparison.
pub open spec fn is_plain(c: char) -> bool {
    c != '=' && c != '<' && c != '>'
}

/// A key that can be written in a path: not empty, and without a full stop.
pub open spec fn is_path_key(key: Seq<char>) -> bool {
    key.len() > 0 && forall|i: int| 0 <= i < key.len() ==> #[trigger] key[i] != '.'
}

pub(crate) proof fn lemma_find_from(text: Seq<char>, pattern: Seq<char>, from: int, p: Option<int>)
    requires
        0 <= from,
        forall|q: int|
            from <= q && (p matches Some(at) ==> q < at) ==> !#[trigger] stands_in(
                text,
                pattern,
                q,
            ),
        p matches Some(at) ==> from <= at && stands_in(text, pattern, at),
    ensures
        find_from(text, pattern, from) == p,
    decreases text.len() + 1 - from,
{
    if from + pattern.len() <= text.len() {
        if text.subrange(from, from + pattern.len()) == pattern {
            assert(stands_in(text, pattern, from));
        } else {
            assert(!stands_in(text, pattern, from));
            lemma_find_from(text, pattern, from + 1, p);
        }
    }
}

pub(crate) proof fn lemma_split_from(word: Seq<char>, op: Op, p: int, k: int)
    requires
        is_parted_at(word, op, p),
        0 <= k <= sign_index(op),
    ensures
        split_from(word, k) == Some(
            (
                word.take(p),
                signs()[sign_index(op)].1,
                word.skip(p + signs()[sign_index(op)].0.len()),
            ),
        ),
    decreases sign_index(op) - k,
{
    if k == sign_index(op) {
        lemma_find_from(word, signs()[k].0, 0, Some(p));
    } else {
        lemma_find_from(word, signs()[k].0, 0, None);
        lemma_split_from(word, op, p, k + 1);
    }
}

/// A key behind a full stop, or at the beginning, is one run more.
proof fn lemma_runs_push(text: Seq<char>, key: Seq<char>)
    requires
        text.len() > 0 ==> text.last() == '.',
        is_path_key(key),
    ensures
        runs(text + key, Separator::Stop) == runs(text, Separator::Stop).push(key),
    decreases key.len(),
{
    let all = text + key;
    let before = key.drop_last();
    assert(all.drop_last() =~= text + before);
    assert(all.last() == key.last());
    assert(key[key.len() - 1] != '.');
    if before.len() > 0 {
        assert forall|i: int| 0 <= i < before.len() implies #[trigger] before[i] != '.' by {
            assert(before[i] == key[i]);
        }
        lemma_runs_push(text, before);
        assert((text + before).last() == before.last());
        assert(before[before.len() - 1] != '.');
        assert(before.push(key.last()) =~= key);
        let init = runs(text, Separator::Stop).push(before);
        assert(init.update(init.len() - 1, before.push(key.last())) =~= runs(
            text,
            Separator::Stop,
        ).push(key));
    } else {
        assert(text + before =~= text);
        assert(key =~= seq![key.last()]);
    }
}

/// Parting joined keys gives the keys.
proof fn lemma_runs_of_joined(path: Seq<Seq<char>>)
    requires
        forall|k: int| 0 <= k < path.len() ==> is_path_key(#[trigger] path[k]),
    ensures
        runs(joined_keys(path), Separator::Stop) == path,
    decreases path.len(),
{
    if path.len() == 1 {
        lemma_runs_push(Seq::empty(), path[0]);
        assert(Seq::empty() + path[0] =~= path[0]);
        assert(Seq::empty().push(path[0]) =~= path);
    } else if path.len() > 1 {
        let init = path.drop_last();
        assert forall|k: int| 0 <= k < init.len() implies is_path_key(#[trigger] init[k]) by {
            assert(init[k] == path[k]);
        }
        lemma_runs_of_joined(init);
        let stopped = joined_keys(init) + seq!['.'];
        assert(stopped.drop_last() =~= joined_keys(init));
        assert(is_path_key(path[path.len() - 1]));
        lemma_runs_push(stopped, path.last());
        assert(init.push(path.last()) =~= path);
    } else {
        assert(runs(joined_keys(path), Separator::Stop) =~= path);
    }
}

/// Parsing a condition undoes printing it, where its sign is what parts the printed word.
/// A comparison for the same text with a value that ends with `*` is printed as one for a
/// prefix, and so is left out.
pub proof fn lemma_parsing_undoes_printing(path: Seq<Seq<char>>, op: Op, value: Seq<char>)
    requires
        path.len() > 0,
        forall|k: int| 0 <= k < path.len() ==> is_path_key(#[trigger] path[k]),
        is_parted_at(printed(path, op, value), op, joined_keys(path).len() as int),
        op is Eq && value.len() > 0 ==> value.last() != '*',
    ensures
        clause_of(printed(path, op, value)) == (ClauseView::Field { path, op, value }),
{
    let word = printed(path, op, value);
    let keys = joined_keys(path);
    let sign = signs()[sign_index(op)].0;
    let tail = value + if op is Prefix {
        seq!['*']
    } else {
        Seq::empty()
    };
    lemma_split_from(word, op, keys.len() as int, 0);
    lemma_runs_of_joined(path);
    assert(word.take(keys.len() as int) =~= keys);
    assert(word.skip(keys.len() as int + sign.len()) =~= tail);
    if op is Prefix {
        assert(tail.drop_last() =~= value);
    } else {
        assert(tail =~= value);
    }
}

/// Where neither the keys nor the value hold a character of a sign, the sign of a printed
/// condition is what parts the word.
pub proof fn lemma_plain_words_are_parted(path: Seq<Seq<char>>, op: Op, value: Seq<char>)
    requires
        forall|k: int, i: int|
            0 <= k < path.len() && 0 <= i < path[k].len() ==> is_plain(#[trigger] path[k][i]),
        forall|i: int| 0 <= i < value.len() ==> is_plain(#[trigger] value[i]),
    ensures
        is_parted_at(printed(path, op, value), op, joined_keys(path).len() as int),
{
    let word = printed(path, op, value);
    let keys = joined_keys(path);
    let n = keys.len() as int;
    let sign = signs()[sign_index(op)].0;
    lemma_joined_plain(path);
    assert(word.subrange(n, n + sign.len()) =~= sign);
    assert forall|i: int| 0 <= i < word.len() && !(n <= i < n + sign.len()) implies is_plain(
        #[trigger] word[i],
    ) by {
        if i < n {
            assert(word[i] == keys[i]);
        } else if i < n + sign.len() + value.len() {
            assert(word[i] == value[i - n - sign.len()]);
        }
    }
    assert forall|q: int| 0 <= q < n implies !#[trigger] stands_in(word, sign, q) by {
        if stands_in(word, sign, q) {
            assert(word.subrange(q, q + sign.len())[0] == word[q]);
            assert(is_plain(word[q]));
        }
    }
    assert forall|k: int, q: int| 0 <= k < sign_index(op) implies !#[trigger] stands_in(
        word,
        signs()[k].0,
        q,
    ) by {
        let other = signs()[k].0;
        if stands_in(word, other, q) {
            let here = word.subrange(q, q + other.len());
            assert(here[0] == word[q]);
            assert(!is_plain(word[q]));
            assert(word[n] == sign[0]);
            if sign.len() == 2 {
                assert(word[n + 1] == sign[1]);
            }
            if other.len() == 2 {
                assert(here[1] == word[q + 1]);
                assert(!is_plain(word[q + 1]));
            }
        }
    }
}

proof fn lemma_joined_plain(path: Seq<Seq<char>>)
    requires
        forall|k: int, i: int|
            0 <= k < path.len() && 0 <= i < path[k].len() ==> is_plain(#[trigger] path[k][i]),
    ensures
        forall|i: int| 0 <= i < joined_keys(path).len() ==> is_plain(#[trigger] joined_keys(path)[i]),
    decreases path.len(),
{
    if path.len() > 1 {
        let init = path.drop_last();
        assert forall|k: int, i: int|
            0 <= k < init.len() && 0 <= i < init[k].len() implies is_plain(
            #[trigger] init[k][i],
        ) by {
            assert(init[k][i] == path[k][i]);
        }
        lemma_joined_plain(init);
        let all = joined_keys(path);
        let before = joined_keys(init);
        assert forall|i: int| 0 <= i < all.len() implies is_plain(#[trigger] all[i]) by {
            if i < before.len() {
                assert(all[i] == before[i]);
            } else if i > before.len() {
                assert(all[i] == path[path.len() - 1][i - before.len() - 1]);
            }
        }
    } else if path.len() == 1 {
        assert forall|i: int| 0 <= i < joined_keys(path).len() implies is_plain(
            #[trigger] joined_keys(path)[i],
        ) by {
            assert(joined_keys(path)[i] == path[0][i]);
        }
    }
}

} // verus!
