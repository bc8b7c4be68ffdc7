//! Compile command records and the rewrite pipeline over their
//! argument lists.
//!
//! Each record carries one compiler invocation.  The pipeline rewrites
//! the record's token list through a fixed pass order: deduplicate,
//! normalize `-I` header search paths, remove tokens matching
//! configured patterns, apply substring replacements, insert
//! configured tokens after the compiler token, deduplicate again,
//! strip single quotes from `-D` macro values, and finally re-join the
//! tokens into a command string, re-quoting macro values that need it.

use crate::pathres::drop_leading_slashes;
use crate::pathres::is_clean_rel_path;
use crate::pathres::lemma_clean_path_head;
use crate::pathres::lemma_drop_leading_slashes_clean;
use crate::pathres::logical_path_of;
use crate::pathres::resolve_logical;
use crate::pattern::all_accepted;
use crate::pattern::any_found;
use crate::pattern::compile_all;
use crate::pattern::first_rejected;
use crate::pattern::matches_any;
use crate::pattern::PatternError;
use crate::postprocess_config::PostProcessConfig;
use crate::text::count_char;
use crate::text::count_char_in_str;
use crate::text::find_char;
use crate::text::find_char_in_str;
use crate::text::lemma_find_char_is_first;
use crate::text::lemma_single_occurrence;
use crate::text::contains_string;
use crate::text::push_char;
use crate::text::replace_seq;
use crate::text::replace_str;
use crate::text::split_char;
use crate::text::split_str;
use crate::text::str_contains_char;
use crate::text::str_eq;
use vstd::prelude::*;
use vstd::string::StrSliceExecFns;
use vstd::string::StringExecFns;

verus! {

/// One compiler invocation record.
#[derive(Debug, Clone, PartialEq)]
pub struct CompileCommand {
    /// The full shell-style invocation; may be empty when `arguments`
    /// is supplied instead.
    pub command: String,
    /// The tokenized form of `command`; authoritative once populated.
    pub arguments: Vec<String>,
    /// The directory the compiler ran in; resolves relative `-I` paths.
    pub directory: String,
    /// The source file, often relative to `directory`.
    pub file: String,
    /// The build output artifact; carried through unchanged.
    pub output: String,
}

impl CompileCommand {
    /// Deduplication key: `directory` and `file` concatenated directly,
    /// with no separator between them.
    pub open spec fn spec_key(&self) -> Seq<char> {
        self.directory@ + self.file@
    }

    /// The record's path as shown and filtered: `directory + "/" + file`.
    pub open spec fn spec_full_path(&self) -> Seq<char> {
        self.directory@ + seq!['/'] + self.file@
    }
}

// ---------------------------------------------------------------------------
// Token shapes
// ---------------------------------------------------------------------------

/// Token of the shape `-D<name>=<value>`: exactly one `=`, and a value
/// of at least two characters after it.
pub open spec fn is_define_eq_token(t: Seq<char>) -> bool {
    &&& t.len() >= 2
    &&& t[0] == '-'
    &&& t[1] == 'D'
    &&& count_char(t, '=') == 1
    &&& t.len() - (find_char(t, '=') + 1) >= 2
}

/// A `-D<name>=<value>` token whose value is wrapped in single quotes.
pub open spec fn needs_quote_strip(t: Seq<char>) -> bool {
    &&& is_define_eq_token(t)
    &&& t[find_char(t, '=') + 1] == '\''
    &&& t[t.len() - 1] == '\''
}

/// The token with the single quotes around its `-D` value removed;
/// other tokens are unchanged.
pub open spec fn strip_quote_token(t: Seq<char>) -> Seq<char> {
    if needs_quote_strip(t) {
        let k = find_char(t, '=');
        t.take(k + 1) + t.subrange(k + 2, t.len() - 1)
    } else {
        t
    }
}

/// The token as emitted into the joined command: a `-D` value that
/// contains a space is wrapped in single quotes.
pub open spec fn quote_token(t: Seq<char>) -> Seq<char> {
    if is_define_eq_token(t) && t.contains(' ') {
        let k = find_char(t, '=');
        t.take(k + 1) + seq!['\''] + t.skip(k + 1) + seq!['\'']
    } else {
        t
    }
}

/// The tokens joined with single spaces, quoting `-D` values that
/// contain one.
pub open spec fn join_tokens(toks: Seq<Seq<char>>) -> Seq<char>
    decreases toks.len(),
{
    if toks.len() == 0 {
        Seq::empty()
    } else if toks.len() == 1 {
        quote_token(toks[0])
    } else {
        quote_token(toks[0]) + seq![' '] + join_tokens(toks.skip(1))
    }
}

// ---------------------------------------------------------------------------
// The rewrite passes, as functions on token sequences
// ---------------------------------------------------------------------------

/// The tokens with every later repetition of an earlier token dropped:
/// the first occurrence survives, in place.
pub open spec fn dedup_tokens(toks: Seq<Seq<char>>) -> Seq<Seq<char>>
    decreases toks.len(),
{
    if toks.len() == 0 {
        toks
    } else {
        let pre = dedup_tokens(toks.drop_last());
        if toks.drop_last().contains(toks.last()) {
            pre
        } else {
            pre.push(toks.last())
        }
    }
}

/// A deduplicated sequence holds the same tokens as its source.
pub proof fn lemma_dedup_tokens_membership(s: Seq<Seq<char>>, x: Seq<char>)
    ensures
        dedup_tokens(s).contains(x) == s.contains(x),
    decreases s.len(),
{
    if s.len() > 0 {
        lemma_dedup_tokens_membership(s.drop_last(), x);
        assert(s.contains(x) == (s.drop_last().contains(x) || s.last() == x)) by {
            if s.contains(x) {
                let i = choose|i: int| 0 <= i < s.len() && s[i] == x;
                if i < s.len() - 1 {
                    assert(s.drop_last()[i] == x);
                }
            }
            if s.drop_last().contains(x) {
                let i = choose|i: int| 0 <= i < s.drop_last().len() && s.drop_last()[i] == x;
                assert(s[i] == x);
            }
            if s.last() == x {
                assert(s[s.len() - 1] == x);
            }
        }
        if !s.drop_last().contains(s.last()) {
            let pre = dedup_tokens(s.drop_last());
            assert(forall|y: Seq<char>|
                pre.push(s.last()).contains(y) == (pre.contains(y) || s.last() == y)) by {
                assert forall|y: Seq<char>| #[trigger]
                    pre.push(s.last()).contains(y) == (pre.contains(y) || s.last() == y) by {
                    if pre.push(s.last()).contains(y) {
                        let i = choose|i: int|
                            0 <= i < pre.push(s.last()).len() && pre.push(s.last())[i] == y;
                        if i < pre.len() {
                            assert(pre[i] == y);
                        }
                    }
                    if pre.contains(y) {
                        let i = choose|i: int| 0 <= i < pre.len() && pre[i] == y;
                        assert(pre.push(s.last())[i] == y);
                    }
                    if s.last() == y {
                        assert(pre.push(s.last())[pre.len() as int] == y);
                    }
                }
            }
        }
    }
}

/// Token of the shape `-I<path>`: a header search path option with a
/// nonempty path.
pub open spec fn is_search_path_token(t: Seq<char>) -> bool {
    t.len() > 2 && t[0] == '-' && t[1] == 'I'
}

/// `s` without a single leading '/', when it has one.
pub open spec fn strip_one_slash(s: Seq<char>) -> Seq<char> {
    if s.len() > 0 && s[0] == '/' {
        s.skip(1)
    } else {
        s
    }
}

/// A `-I` token rewritten to carry an absolute, logically resolved
/// path: a relative path is resolved against `dir`, an absolute one is
/// only cleaned up, and the result is re-prefixed with `-I/`.
pub open spec fn normalize_search_token(t: Seq<char>, dir: Seq<char>) -> Seq<char> {
    if is_search_path_token(t) {
        let rest = t.skip(2);
        let resolved = if rest[0] == '/' {
            logical_path_of(rest, Seq::empty())
        } else {
            logical_path_of(rest, dir)
        };
        seq!['-', 'I', '/'] + strip_one_slash(resolved)
    } else {
        t
    }
}

/// A `-I` token already in normal form: absolute, with a clean path.
pub open spec fn is_normal_search_token(t: Seq<char>) -> bool {
    t.len() >= 3 && t[0] == '-' && t[1] == 'I' && t[2] == '/' && is_clean_rel_path(t.skip(3))
}

/// The tokens that no pattern in `pats` matches, in order.
pub open spec fn remove_matching(toks: Seq<Seq<char>>, pats: Seq<Seq<char>>) -> Seq<Seq<char>> {
    toks.filter(|t: Seq<char>| !any_found(pats, t))
}

/// One `"from,to"` rule applied to a token: a literal substring
/// replacement when the rule has exactly one comma, otherwise no
/// change.
pub open spec fn apply_one_rule(t: Seq<char>, rule: Seq<char>) -> Seq<char> {
    if count_char(rule, ',') == 1 {
        let k = find_char(rule, ',');
        replace_seq(t, rule.take(k), rule.skip(k + 1))
    } else {
        t
    }
}

/// All replacement rules applied to a token, in listed order, each on
/// the previous one's output.
pub open spec fn apply_replace_rules(t: Seq<char>, rules: Seq<Seq<char>>) -> Seq<char>
    decreases rules.len(),
{
    if rules.len() == 0 {
        t
    } else {
        apply_replace_rules(apply_one_rule(t, rules[0]), rules.skip(1))
    }
}

/// The insertion block placed right after the first token; an empty
/// token list stays empty.
pub open spec fn insert_block(toks: Seq<Seq<char>>, ins: Seq<Seq<char>>) -> Seq<Seq<char>> {
    if toks.len() == 0 {
        toks
    } else {
        toks.take(1) + ins + toks.skip(1)
    }
}

// ---------------------------------------------------------------------------
// The whole pipeline over one record
// ---------------------------------------------------------------------------

/// The configured removal patterns, empty when no rules are given.
pub open spec fn config_remove(c: Option<PostProcessConfig>) -> Seq<Seq<char>> {
    match c {
        Option::Some(c) => c.remove.deep_view(),
        Option::None => Seq::empty(),
    }
}

/// The configured replacement rules, empty when no rules are given.
pub open spec fn config_replace(c: Option<PostProcessConfig>) -> Seq<Seq<char>> {
    match c {
        Option::Some(c) => c.replace.deep_view(),
        Option::None => Seq::empty(),
    }
}

/// The configured insertion tokens, empty when no rules are given.
pub open spec fn config_insert(c: Option<PostProcessConfig>) -> Seq<Seq<char>> {
    match c {
        Option::Some(c) => c.insert.deep_view(),
        Option::None => Seq::empty(),
    }
}

/// The token list a record starts from: its `arguments` when present,
/// else its `command` split at spaces.
pub open spec fn initial_arguments(cmd: Seq<char>, args: Seq<Seq<char>>) -> Seq<Seq<char>> {
    if args.len() == 0 {
        split_char(cmd, ' ')
    } else {
        args
    }
}

/// The record's token list after the full pass pipeline, in its fixed
/// order: deduplicate, normalize `-I` paths, remove, replace, insert,
/// deduplicate, strip quotes.
pub open spec fn rewritten_arguments(
    cmd: Seq<char>,
    args: Seq<Seq<char>>,
    dir: Seq<char>,
    c: Option<PostProcessConfig>,
) -> Seq<Seq<char>> {
    let a1 = dedup_tokens(initial_arguments(cmd, args));
    let a2 = a1.map_values(|t: Seq<char>| normalize_search_token(t, dir));
    let a3 = remove_matching(a2, config_remove(c));
    let a4 = a3.map_values(|t: Seq<char>| apply_replace_rules(t, config_replace(c)));
    let a5 = insert_block(a4, config_insert(c));
    let a6 = dedup_tokens(a5);
    a6.map_values(|t: Seq<char>| strip_quote_token(t))
}

// ---------------------------------------------------------------------------
// Collections of records
// ---------------------------------------------------------------------------

/// Some record in `s` has deduplication key `k`.
pub open spec fn keys_contain(s: Seq<CompileCommand>, k: Seq<char>) -> bool {
    exists|i: int| 0 <= i < s.len() && s[i].spec_key() == k
}

/// The records with only the first occurrence of each key kept, in
/// order.
pub open spec fn dedup_entries_first(s: Seq<CompileCommand>) -> Seq<CompileCommand>
    decreases s.len(),
{
    if s.len() == 0 {
        s
    } else {
        let pre = dedup_entries_first(s.drop_last());
        if keys_contain(s.drop_last(), s.last().spec_key()) {
            pre
        } else {
            pre.push(s.last())
        }
    }
}

/// The records with only the last occurrence of each key kept, in
/// order.
pub open spec fn dedup_entries_last(s: Seq<CompileCommand>) -> Seq<CompileCommand>
    decreases s.len(),
{
    if s.len() == 0 {
        s
    } else if keys_contain(s.skip(1), s[0].spec_key()) {
        dedup_entries_last(s.skip(1))
    } else {
        seq![s[0]] + dedup_entries_last(s.skip(1))
    }
}

/// The records whose full path no ignore pattern matches, in order.
pub open spec fn filter_ignored(
    s: Seq<CompileCommand>,
    pats: Seq<Seq<char>>,
) -> Seq<CompileCommand> {
    s.filter(|cc: CompileCommand| !any_found(pats, cc.spec_full_path()))
}

// ---------------------------------------------------------------------------
// Executable passes
// ---------------------------------------------------------------------------

impl CompileCommand {
    /// Whether `arg` is a `-D<name>=<value>` option with exactly one
    /// `=` and a value of at least two characters.
    pub fn is_arg_with_d_and_equal(arg: &str) -> (r: bool)
        ensures
            r == is_define_eq_token(arg@),
    {
        let len = arg.unicode_len();
        if len < 2 {
            return false;
        }
        if arg.get_char(0) != '-' || arg.get_char(1) != 'D' {
            return false;
        }
        let cnt = count_char_in_str(arg, '=');
        if cnt != 1 {
            return false;
        }
        proof {
            lemma_single_occurrence(arg@, '=');
            lemma_find_char_is_first(arg@, '=');
        }
        let k = match find_char_in_str(arg, '=') {
            Some(k) => k,
            None => {
                proof {
                    assert(false);
                }
                return false;
            },
        };
        len - (k + 1) >= 2
    }

    /// Whether `arg` is a `-D<name>=<value>` option whose value is
    /// wrapped in single quotes.
    pub fn is_need_to_handle_sing_quota(arg: &str) -> (r: bool)
        ensures
            r == needs_quote_strip(arg@),
    {
        if !Self::is_arg_with_d_and_equal(arg) {
            return false;
        }
        proof {
            lemma_single_occurrence(arg@, '=');
            lemma_find_char_is_first(arg@, '=');
        }
        let k = match find_char_in_str(arg, '=') {
            Some(k) => k,
            None => {
                proof {
                    assert(false);
                }
                return false;
            },
        };
        let len = arg.unicode_len();
        arg.get_char(k + 1) == '\'' && arg.get_char(len - 1) == '\''
    }

    /// Removes the single quotes around `-D` macro values, in place:
    /// `-DNAME='v'` becomes `-DNAME=v`; other tokens are untouched.
    pub fn handle_the_single_quote(arg: &mut Vec<String>)
        ensures
            final(arg).deep_view() == old(arg).deep_view().map_values(
                |t: Seq<char>| strip_quote_token(t),
            ),
    {
        let ghost orig = arg.deep_view();
        let mut out: Vec<String> = Vec::new();
        let mut i: usize = 0;
        while i < arg.len()
            invariant
                0 <= i <= arg@.len(),
                arg@.len() == orig.len(),
                arg.deep_view() == orig,
                out@.len() == i,
                forall|j: int| 0 <= j < i ==> out.deep_view()[j] == strip_quote_token(orig[j]),
            decreases arg@.len() - i,
        {
            proof {
                assert(arg.deep_view()[i as int] == arg@[i as int]@);
            }
            let needs = Self::is_need_to_handle_sing_quota(arg[i].as_str());
            let ghost old_out = out.deep_view();
            if needs {
                proof {
                    lemma_single_occurrence(arg@[i as int]@, '=');
                    lemma_find_char_is_first(arg@[i as int]@, '=');
                }
                let tok_len = arg[i].as_str().unicode_len();
                let k = match find_char_in_str(arg[i].as_str(), '=') {
                    Some(k) => k,
                    None => {
                        proof {
                            assert(false);
                        }
                        0
                    },
                };
                let head = arg[i].as_str().substring_char(0, k + 1);
                let mut replacement = String::new();
                replacement.append(head);
                let tail = arg[i].as_str().substring_char(k + 2, tok_len - 1);
                replacement.append(tail);
                proof {
                    let t = orig[i as int];
                    assert(replacement@ =~= t.take(k + 1) + t.subrange(k + 2, t.len() - 1));
                    assert(replacement@ == strip_quote_token(t));
                }
                let ghost rv = replacement@;
                out.push(replacement);
                proof {
                    assert(out.deep_view() =~= old_out.push(rv));
                }
            } else {
                proof {
                    assert(strip_quote_token(orig[i as int]) == orig[i as int]);
                }
                let kept = arg[i].clone();
                let ghost kv = kept@;
                out.push(kept);
                proof {
                    assert(out.deep_view() =~= old_out.push(kv));
                }
            }
            i = i + 1;
        }
        *arg = out;
        proof {
            assert(arg.deep_view() =~= orig.map_values(|t: Seq<char>| strip_quote_token(t)));
        }
    }

    /// Joins the tokens into one command string, separated by single
    /// spaces, wrapping `-D` macro values that contain a space in
    /// single quotes.
    pub fn join_the_arguments_as_commands(args: &Vec<String>) -> (r: String)
        ensures
            r@ == join_tokens(args.deep_view()),
    {
        let ghost dv = args.deep_view();
        let n = args.len();
        if n == 0 {
            return String::new();
        }
        let mut out = Self::quote_token_for_join(args[0].as_str());
        proof {
            assert(dv[0] == args@[0]@);
            assert(dv.skip(0) =~= dv);
            if n == 1 {
                assert(join_tokens(dv) =~= quote_token(dv[0]));
                assert(join_tokens(dv).skip(quote_token(dv[0]).len() as int) =~= Seq::<
                    char,
                >::empty());
            } else {
                assert(join_tokens(dv) =~= quote_token(dv[0]) + seq![' '] + join_tokens(dv.skip(1)));
                assert(join_tokens(dv).skip(quote_token(dv[0]).len() as int) =~= seq![' ']
                    + join_tokens(dv.skip(1)));
            }
        }
        let mut i: usize = 1;
        while i < n
            invariant
                1 <= i <= n,
                n == dv.len(),
                dv == args.deep_view(),
                join_tokens(dv) =~= out@ + join_tokens(dv.skip(i - 1)).skip(quote_token(
                    dv[i - 1],
                ).len() as int),
            decreases n - i,
        {
            proof {
                assert(dv.skip(i - 1).len() >= 2);
                assert(dv.skip(i - 1)[0] == dv[i - 1]);
                assert(dv.skip(i - 1).skip(1) =~= dv.skip(i as int));
                let tail = join_tokens(dv.skip(i - 1));
                assert(tail =~= quote_token(dv[i - 1]) + seq![' '] + join_tokens(dv.skip(i as int)));
                assert(tail.skip(quote_token(dv[i - 1]).len() as int) =~= seq![' '] + join_tokens(
                    dv.skip(i as int),
                ));
            }
            push_char(&mut out, ' ');
            let piece = Self::quote_token_for_join(args[i].as_str());
            out.append(piece.as_str());
            proof {
                let tail1 = join_tokens(dv.skip(i as int));
                if dv.skip(i as int).len() == 1 {
                    assert(tail1 =~= quote_token(dv[i as int]));
                } else {
                    assert(dv.skip(i as int)[0] == dv[i as int]);
                    assert(tail1 =~= quote_token(dv[i as int]) + seq![' '] + join_tokens(
                        dv.skip(i as int).skip(1),
                    ));
                }
                assert(tail1.skip(quote_token(dv[i as int]).len() as int) =~= join_tokens(
                    dv.skip(i as int),
                ).skip(quote_token(dv[i as int]).len() as int));
            }
            i = i + 1;
        }
        proof {
            assert(dv.skip(n - 1).len() == 1);
            assert(dv.skip(n - 1)[0] == dv[n - 1]);
            let tail = join_tokens(dv.skip(n - 1));
            assert(tail =~= quote_token(dv[n - 1]));
            assert(tail.skip(quote_token(dv[n - 1]).len() as int) =~= Seq::<char>::empty());
            assert(join_tokens(dv) =~= out@);
        }
        out
    }

    /// One token as it appears in the joined command string.
    fn quote_token_for_join(t: &str) -> (r: String)
        ensures
            r@ == quote_token(t@),
    {
        let is_define = Self::is_arg_with_d_and_equal(t);
        if is_define && str_contains_char(t, ' ') {
            proof {
                lemma_single_occurrence(t@, '=');
                lemma_find_char_is_first(t@, '=');
            }
            let k = match find_char_in_str(t, '=') {
                Some(k) => k,
                None => {
                    proof {
                        assert(false);
                    }
                    0
                },
            };
            let len = t.unicode_len();
            let mut out = String::new();
            out.append(t.substring_char(0, k + 1));
            push_char(&mut out, '\'');
            out.append(t.substring_char(k + 1, len));
            push_char(&mut out, '\'');
            proof {
                assert(out@ =~= t@.take(k + 1) + seq!['\''] + t@.skip(k + 1) + seq!['\'']);
            }
            out
        } else {
            let out = String::from_str(t);
            out
        }
    }

    /// Populates `arguments` from `command`, split at single spaces,
    /// when `arguments` is still empty; otherwise leaves the record
    /// untouched.
    pub fn init_arguments(&mut self)
        ensures
            final(self).arguments.deep_view() == initial_arguments(
                old(self).command@,
                old(self).arguments.deep_view(),
            ),
            final(self).command == old(self).command,
            final(self).directory == old(self).directory,
            final(self).file == old(self).file,
            final(self).output == old(self).output,
    {
        if self.arguments.len() == 0 {
            proof {
                assert(old(self).arguments.deep_view().len() == 0);
            }
            self.arguments = split_str(self.command.as_str(), ' ');
        }
    }

    /// Drops every later repetition of a token, keeping the first
    /// occurrence in place.
    pub fn remove_duplicate_option(arguments: &mut Vec<String>)
        ensures
            final(arguments).deep_view() == dedup_tokens(old(arguments).deep_view()),
    {
        let ghost orig = arguments.deep_view();
        let mut out: Vec<String> = Vec::new();
        let mut i: usize = 0;
        proof {
            assert(orig.take(0) =~= Seq::<Seq<char>>::empty());
        }
        while i < arguments.len()
            invariant
                0 <= i <= arguments@.len(),
                arguments@.len() == orig.len(),
                arguments.deep_view() == orig,
                out.deep_view() == dedup_tokens(orig.take(i as int)),
            decreases arguments@.len() - i,
        {
            proof {
                assert(arguments.deep_view()[i as int] == arguments@[i as int]@);
            }
            let present = contains_string(&out, arguments[i].as_str());
            proof {
                lemma_dedup_tokens_membership(orig.take(i as int), orig[i as int]);
                assert(orig.take(i + 1).drop_last() =~= orig.take(i as int));
                assert(orig.take(i + 1).last() == orig[i as int]);
            }
            if !present {
                let kept = arguments[i].clone();
                let ghost kv = kept@;
                let ghost old_out = out.deep_view();
                out.push(kept);
                proof {
                    assert(out.deep_view() =~= old_out.push(kv));
                }
            }
            i = i + 1;
        }
        proof {
            assert(orig.take(orig.len() as int) =~= orig);
        }
        *arguments = out;
    }

    /// Inserts the configured tokens as one block right after the
    /// compiler token; an empty argument list stays empty.
    pub fn insert_needed_option(arguments: &mut Vec<String>, insert_options: &Vec<String>)
        ensures
            final(arguments).deep_view() == insert_block(
                old(arguments).deep_view(),
                insert_options.deep_view(),
            ),
    {
        let ghost orig = arguments.deep_view();
        let ghost ins = insert_options.deep_view();
        if arguments.len() == 0 {
            return ;
        }
        let mut out: Vec<String> = Vec::new();
        let first = arguments[0].clone();
        let ghost fv = first@;
        out.push(first);
        proof {
            assert(out.deep_view() =~= seq![orig[0]]);
        }
        let mut j: usize = 0;
        while j < insert_options.len()
            invariant
                0 <= j <= ins.len(),
                ins == insert_options.deep_view(),
                ins.len() == insert_options@.len(),
                orig.len() >= 1,
                orig[0] == fv,
                out.deep_view() =~= seq![orig[0]] + ins.take(j as int),
            decreases ins.len() - j,
        {
            proof {
                assert(insert_options.deep_view()[j as int] == insert_options@[j as int]@);
            }
            let item = insert_options[j].clone();
            let ghost iv = item@;
            let ghost old_out = out.deep_view();
            out.push(item);
            proof {
                assert(out.deep_view() =~= old_out.push(iv));
                assert(ins.take(j + 1) =~= ins.take(j as int).push(ins[j as int]));
                assert(out.deep_view() =~= seq![orig[0]] + ins.take(j + 1));
            }
            j = j + 1;
        }
        proof {
            assert(ins.take(ins.len() as int) =~= ins);
        }
        let mut i: usize = 1;
        while i < arguments.len()
            invariant
                1 <= i <= arguments@.len(),
                arguments@.len() == orig.len(),
                arguments.deep_view() == orig,
                out.deep_view() =~= seq![orig[0]] + ins + orig.subrange(1, i as int),
            decreases arguments@.len() - i,
        {
            proof {
                assert(arguments.deep_view()[i as int] == arguments@[i as int]@);
            }
            let item = arguments[i].clone();
            let ghost iv = item@;
            let ghost old_out = out.deep_view();
            out.push(item);
            proof {
                assert(out.deep_view() =~= old_out.push(iv));
                assert(orig.subrange(1, i + 1) =~= orig.subrange(1, i as int).push(orig[i as int]));
                assert(out.deep_view() =~= seq![orig[0]] + ins + orig.subrange(1, i + 1));
            }
            i = i + 1;
        }
        *arguments = out;
        proof {
            assert(orig.subrange(1, orig.len() as int) =~= orig.skip(1));
            assert(seq![orig[0]] =~= orig.take(1));
            assert(final(arguments).deep_view() =~= orig.take(1) + ins + orig.skip(1));
        }
    }

    /// Drops every token matched anywhere by any of the configured
    /// patterns.  Fails, leaving the arguments untouched, exactly when
    /// one of the patterns is not a valid regular expression; the
    /// error carries the first such pattern.
    pub fn remove_option(arguments: &mut Vec<String>, remove_options: &Vec<String>) -> (r: Result<
        (),
        PatternError,
    >)
        ensures
            r is Ok <==> all_accepted(remove_options.deep_view()),
            r is Ok ==> final(arguments).deep_view() == remove_matching(
                old(arguments).deep_view(),
                remove_options.deep_view(),
            ),
            r is Err ==> final(arguments)@ == old(arguments)@,
            r is Err ==> (r->Err_0).pattern@ == remove_options.deep_view()[first_rejected(
                remove_options.deep_view(),
            )],
    {
        let ghost pats = remove_options.deep_view();
        let matchers = match compile_all(remove_options) {
            Ok(m) => m,
            Err(e) => {
                return Err(e);
            },
        };
        let ghost orig = arguments.deep_view();
        let ghost pred = |t: Seq<char>| !any_found(pats, t);
        let mut out: Vec<String> = Vec::new();
        let mut i: usize = 0;
        proof {
            reveal(Seq::filter);
            assert(orig.take(0) =~= Seq::<Seq<char>>::empty());
            assert(out.deep_view() =~= orig.take(0).filter(pred));
        }
        while i < arguments.len()
            invariant
                0 <= i <= arguments@.len(),
                arguments@.len() == orig.len(),
                arguments.deep_view() == orig,
                pats == remove_options.deep_view(),
                matchers@.len() == pats.len(),
                forall|j: int| 0 <= j < pats.len() ==> matchers@[j].pattern_view() == pats[j],
                pred == (|t: Seq<char>| !any_found(pats, t)),
                out.deep_view() == orig.take(i as int).filter(pred),
            decreases arguments@.len() - i,
        {
            proof {
                assert(arguments.deep_view()[i as int] == arguments@[i as int]@);
            }
            let hit = matches_any(&matchers, arguments[i].as_str());
            proof {
                let t = orig[i as int];
                assert(hit == any_found(pats, t)) by {
                    if hit {
                        let j = choose|j: int|
                            0 <= j < matchers@.len() && crate::pattern::regex_found(
                                matchers@[j].pattern_view(),
                                t,
                            );
                        assert(crate::pattern::regex_found(pats[j], t));
                    }
                    if any_found(pats, t) {
                        let j = choose|j: int|
                            0 <= j < pats.len() && crate::pattern::regex_found(pats[j], t);
                        assert(crate::pattern::regex_found(matchers@[j].pattern_view(), t));
                    }
                }
            }
            let ghost old_out = out.deep_view();
            proof {
                reveal(Seq::filter);
                assert(orig.take(i + 1).drop_last() =~= orig.take(i as int));
                assert(orig.take(i + 1).last() == orig[i as int]);
            }
            if !hit {
                let kept = arguments[i].clone();
                let ghost kv = kept@;
                out.push(kept);
                proof {
                    assert(out.deep_view() =~= old_out.push(kv));
                }
            }
            i = i + 1;
        }
        proof {
            assert(orig.take(orig.len() as int) =~= orig);
        }
        *arguments = out;
        Ok(())
    }

    /// Applies every well-formed `"from,to"` rule to every token, in
    /// listed order; rules without exactly one comma are skipped.
    pub fn replace_option(arguments: &mut Vec<String>, replace_options: &Vec<String>)
        ensures
            final(arguments).deep_view() == old(arguments).deep_view().map_values(
                |t: Seq<char>| apply_replace_rules(t, replace_options.deep_view()),
            ),
    {
        let ghost orig = arguments.deep_view();
        let ghost rules = replace_options.deep_view();
        let mut out: Vec<String> = Vec::new();
        let mut i: usize = 0;
        while i < arguments.len()
            invariant
                0 <= i <= arguments@.len(),
                arguments@.len() == orig.len(),
                arguments.deep_view() == orig,
                rules == replace_options.deep_view(),
                rules.len() == replace_options@.len(),
                out@.len() == i,
                forall|j: int|
                    0 <= j < i ==> out.deep_view()[j] == apply_replace_rules(orig[j], rules),
            decreases arguments@.len() - i,
        {
            proof {
                assert(arguments.deep_view()[i as int] == arguments@[i as int]@);
            }
            let mut cur = arguments[i].clone();
            let mut j: usize = 0;
            proof {
                assert(rules.skip(0) =~= rules);
            }
            while j < replace_options.len()
                invariant
                    0 <= j <= rules.len(),
                    rules == replace_options.deep_view(),
                    rules.len() == replace_options@.len(),
                    0 <= i < orig.len(),
                    apply_replace_rules(orig[i as int], rules) == apply_replace_rules(
                        cur@,
                        rules.skip(j as int),
                    ),
                decreases rules.len() - j,
            {
                proof {
                    assert(replace_options.deep_view()[j as int] == replace_options@[j as int]@);
                    assert(rules.skip(j as int).len() > 0);
                    assert(rules.skip(j as int)[0] == rules[j as int]);
                    assert(rules.skip(j as int).skip(1) =~= rules.skip(j + 1));
                }
                let rule = &replace_options[j];
                let cnt = count_char_in_str(rule.as_str(), ',');
                if cnt == 1 {
                    proof {
                        lemma_single_occurrence(rule@, ',');
                        lemma_find_char_is_first(rule@, ',');
                    }
                    let k = match find_char_in_str(rule.as_str(), ',') {
                        Some(k) => k,
                        None => {
                            proof {
                                assert(false);
                            }
                            0
                        },
                    };
                    let rule_len = rule.as_str().unicode_len();
                    let from = rule.as_str().substring_char(0, k);
                    let to = rule.as_str().substring_char(k + 1, rule_len);
                    let next = replace_str(cur.as_str(), from, to);
                    proof {
                        assert(from@ =~= rules[j as int].take(k as int));
                        assert(to@ =~= rules[j as int].skip(k + 1));
                        assert(next@ == apply_one_rule(cur@, rules[j as int]));
                    }
                    cur = next;
                } else {
                    proof {
                        assert(apply_one_rule(cur@, rules[j as int]) == cur@);
                    }
                }
                j = j + 1;
            }
            proof {
                assert(rules.skip(rules.len() as int).len() == 0);
                assert(apply_replace_rules(orig[i as int], rules) == cur@);
            }
            let ghost cv = cur@;
            let ghost old_out = out.deep_view();
            out.push(cur);
            proof {
                assert(out.deep_view() =~= old_out.push(cv));
            }
            i = i + 1;
        }
        *arguments = out;
        proof {
            assert(final(arguments).deep_view() =~= orig.map_values(
                |t: Seq<char>| apply_replace_rules(t, rules),
            ));
        }
    }

    /// Rewrites one token through `-I` path normalization.
    fn normalize_one_search_token(t: &str, dir: &str) -> (r: String)
        ensures
            r@ == normalize_search_token(t@, dir@),
            is_normal_search_token(t@) ==> r@ == t@,
    {
        let len = t.unicode_len();
        if len <= 2 {
            return String::from_str(t);
        }
        if t.get_char(0) != '-' || t.get_char(1) != 'I' {
            return String::from_str(t);
        }
        let rest = t.substring_char(2, len);
        proof {
            assert(rest@ =~= t@.skip(2));
        }
        let resolved = if rest.get_char(0) == '/' {
            proof {
                reveal_strlit("");
                assert((""@) =~= Seq::<char>::empty());
            }
            resolve_logical(rest, "")
        } else {
            resolve_logical(rest, dir)
        };
        let mut out = String::from_str("-I/");
        proof {
            reveal_strlit("-I/");
            assert(("-I/"@) =~= seq!['-', 'I', '/']);
        }
        let rlen = resolved.as_str().unicode_len();
        if rlen > 0 && resolved.as_str().get_char(0) == '/' {
            let stripped = resolved.as_str().substring_char(1, rlen);
            out.append(stripped);
            proof {
                assert(stripped@ =~= resolved@.skip(1));
            }
        } else {
            out.append(resolved.as_str());
        }
        proof {
            assert(out@ =~= seq!['-', 'I', '/'] + strip_one_slash(resolved@));
            if is_normal_search_token(t@) {
                let s = t@.skip(3);
                assert(rest@[0] == t@[2]);
                assert(rest@.skip(1) =~= s);
                assert(drop_leading_slashes(rest@) == drop_leading_slashes(s));
                lemma_drop_leading_slashes_clean(s);
                assert(resolved@ == s);
                if s.len() > 0 {
                    lemma_clean_path_head(s);
                }
                assert(strip_one_slash(resolved@) == s);
                assert(out@ =~= t@);
            }
        }
        out
    }

    /// Rewrites every `-I<path>` token to carry an absolute, logically
    /// resolved path: a relative path is resolved against
    /// `base_directory`, an absolute one is only cleaned up.  Every
    /// rewritten token starts with `-I/`, and a token already in
    /// normal form is left exactly as it was.
    pub fn handle_header_search_path(arguments: &mut Vec<String>, base_directory: &str)
        ensures
            final(arguments).deep_view() == old(arguments).deep_view().map_values(
                |tk: Seq<char>| normalize_search_token(tk, base_directory@),
            ),
            forall|j: int|
                0 <= j < old(arguments).deep_view().len() && is_search_path_token(
                    #[trigger] old(arguments).deep_view()[j],
                ) ==> {
                    let r = final(arguments).deep_view()[j];
                    r.len() >= 3 && r[0] == '-' && r[1] == 'I' && r[2] == '/'
                },
            forall|j: int|
                0 <= j < old(arguments).deep_view().len() && is_normal_search_token(
                    #[trigger] old(arguments).deep_view()[j],
                ) ==> final(arguments).deep_view()[j] == old(arguments).deep_view()[j],
    {
        let ghost orig = arguments.deep_view();
        let mut out: Vec<String> = Vec::new();
        let mut i: usize = 0;
        while i < arguments.len()
            invariant
                0 <= i <= arguments@.len(),
                arguments@.len() == orig.len(),
                arguments.deep_view() == orig,
                out@.len() == i,
                forall|j: int|
                    0 <= j < i ==> out.deep_view()[j] == normalize_search_token(
                        orig[j],
                        base_directory@,
                    ),
                forall|j: int|
                    0 <= j < i && is_normal_search_token(orig[j]) ==> out.deep_view()[j] == orig[j],
            decreases arguments@.len() - i,
        {
            proof {
                assert(arguments.deep_view()[i as int] == arguments@[i as int]@);
            }
            let rewritten = Self::normalize_one_search_token(arguments[i].as_str(), base_directory);
            let ghost rv = rewritten@;
            let ghost old_out = out.deep_view();
            out.push(rewritten);
            proof {
                assert(out.deep_view() =~= old_out.push(rv));
            }
            i = i + 1;
        }
        *arguments = out;
        proof {
            assert(final(arguments).deep_view() =~= orig.map_values(
                |tk: Seq<char>| normalize_search_token(tk, base_directory@),
            ));
        }
    }

    /// Runs the full rewrite pipeline over this record: populates
    /// `arguments` from `command` when empty, applies the passes in
    /// their fixed order, and regenerates `command` from the rewritten
    /// tokens.
    ///
    /// Fails, leaving the record untouched, exactly when one of the
    /// configured removal patterns is not a valid regular expression;
    /// the error carries the first such pattern.
    pub fn postprocess(&mut self, pp_config: &Option<PostProcessConfig>) -> (r: Result<
        (),
        PatternError,
    >)
        ensures
            r is Ok <==> all_accepted(config_remove(*pp_config)),
            r is Ok ==> final(self).arguments.deep_view() == rewritten_arguments(
                old(self).command@,
                old(self).arguments.deep_view(),
                old(self).directory@,
                *pp_config,
            ),
            r is Ok ==> final(self).command@ == join_tokens(final(self).arguments.deep_view()),
            final(self).directory == old(self).directory,
            final(self).file == old(self).file,
            final(self).output == old(self).output,
            r is Err ==> *final(self) == *old(self),
            r is Err ==> (r->Err_0).pattern@ == config_remove(*pp_config)[first_rejected(
                config_remove(*pp_config),
            )],
    {
        let ghost c = *pp_config;
        let empty_list: Vec<String> = Vec::new();
        proof {
            assert(empty_list.deep_view() =~= Seq::<Seq<char>>::empty());
        }
        let remove_list = match pp_config {
            Some(cfg) => &cfg.remove,
            None => &empty_list,
        };
        let replace_list = match pp_config {
            Some(cfg) => &cfg.replace,
            None => &empty_list,
        };
        let insert_list = match pp_config {
            Some(cfg) => &cfg.insert,
            None => &empty_list,
        };
        proof {
            assert(remove_list.deep_view() == config_remove(c));
            assert(replace_list.deep_view() == config_replace(c));
            assert(insert_list.deep_view() == config_insert(c));
        }
        match compile_all(remove_list) {
            Ok(_) => {},
            Err(e) => {
                return Err(e);
            },
        }
        self.init_arguments();
        let ghost s0 = self.arguments.deep_view();
        Self::remove_duplicate_option(&mut self.arguments);
        let ghost s1 = self.arguments.deep_view();
        Self::handle_header_search_path(&mut self.arguments, self.directory.as_str());
        let ghost s2 = self.arguments.deep_view();
        match Self::remove_option(&mut self.arguments, remove_list) {
            Ok(_) => {},
            Err(e) => {
                proof {
                    assert(false);
                }
                return Err(e);
            },
        }
        let ghost s3 = self.arguments.deep_view();
        Self::replace_option(&mut self.arguments, replace_list);
        let ghost s4 = self.arguments.deep_view();
        Self::insert_needed_option(&mut self.arguments, insert_list);
        let ghost s5 = self.arguments.deep_view();
        Self::remove_duplicate_option(&mut self.arguments);
        let ghost s6 = self.arguments.deep_view();
        Self::handle_the_single_quote(&mut self.arguments);
        let ghost s7 = self.arguments.deep_view();
        self.command = Self::join_the_arguments_as_commands(&self.arguments);
        proof {
            let dir = old(self).directory@;
            let a1 = dedup_tokens(initial_arguments(old(self).command@, old(self).arguments.deep_view()));
            assert(s1 == a1);
            let a2 = a1.map_values(|tk: Seq<char>| normalize_search_token(tk, dir));
            assert(s2 =~= a2) by {
                assert(s2 == s1.map_values(|tk: Seq<char>| normalize_search_token(tk, dir)));
            }
            let a3 = remove_matching(a2, config_remove(c));
            assert(s3 == a3);
            let a4 = a3.map_values(|tk: Seq<char>| apply_replace_rules(tk, config_replace(c)));
            assert(s4 =~= a4) by {
                assert(s4 == s3.map_values(
                    |tk: Seq<char>| apply_replace_rules(tk, replace_list.deep_view()),
                ));
                assert(forall|i: int| 0 <= i < s3.len() ==> #[trigger] s4[i] == apply_replace_rules(
                    s3[i],
                    config_replace(c),
                ));
            }
            let a5 = insert_block(a4, config_insert(c));
            assert(s5 == a5);
            let a6 = dedup_tokens(a5);
            assert(s6 == a6);
            let a7 = a6.map_values(|tk: Seq<char>| strip_quote_token(tk));
            assert(s7 =~= a7) by {
                assert(s7 == s6.map_values(|tk: Seq<char>| strip_quote_token(tk)));
            }
            assert(s7 == rewritten_arguments(
                old(self).command@,
                old(self).arguments.deep_view(),
                old(self).directory@,
                c,
            ));
        }
        Ok(())
    }
}

// ---------------------------------------------------------------------------
// Collection reconciliation
// ---------------------------------------------------------------------------

/// Appending one record extends the keys present by that record's key.
pub proof fn lemma_keys_contain_push(s: Seq<CompileCommand>, x: CompileCommand, k: Seq<char>)
    ensures
        keys_contain(s.push(x), k) == (keys_contain(s, k) || x.spec_key() == k),
{
    if keys_contain(s.push(x), k) {
        let i = choose|i: int| 0 <= i < s.push(x).len() && s.push(x)[i].spec_key() == k;
        if i < s.len() {
            assert(s[i].spec_key() == k);
        }
    }
    if keys_contain(s, k) {
        let i = choose|i: int| 0 <= i < s.len() && s[i].spec_key() == k;
        assert(s.push(x)[i].spec_key() == k);
    }
    if x.spec_key() == k {
        assert(s.push(x)[s.len() as int].spec_key() == k);
    }
}

/// Likewise for a sequence of plain strings and membership.
pub proof fn lemma_contains_push(s: Seq<Seq<char>>, x: Seq<char>, y: Seq<char>)
    ensures
        s.push(x).contains(y) == (s.contains(y) || x == y),
{
    if s.push(x).contains(y) {
        let i = choose|i: int| 0 <= i < s.push(x).len() && s.push(x)[i] == y;
        if i < s.len() {
            assert(s[i] == y);
        }
    }
    if s.contains(y) {
        let i = choose|i: int| 0 <= i < s.len() && s[i] == y;
        assert(s.push(x)[i] == y);
    }
    if x == y {
        assert(s.push(x)[s.len() as int] == y);
    }
}

impl CompileCommand {
    /// The record's deduplication key as a string: `directory` and
    /// `file` concatenated directly.
    pub fn key_string(&self) -> (r: String)
        ensures
            r@ == self.spec_key(),
    {
        self.directory.clone().concat(self.file.as_str())
    }

    /// The record's path as shown and filtered: `directory + "/" + file`.
    pub fn full_path(&self) -> (r: String)
        ensures
            r@ == self.spec_full_path(),
    {
        proof {
            reveal_strlit("/");
            assert(("/"@) =~= seq!['/']);
        }
        let r = self.directory.clone().concat("/").concat(self.file.as_str());
        proof {
            assert(r@ =~= self.spec_full_path());
        }
        r
    }

    /// Whether a query names this record: either its `file` field
    /// exactly, or its full path.
    pub fn matches_file_query(&self, query: &str) -> (r: bool)
        ensures
            r == (self.file@ == query@ || self.spec_full_path() == query@),
    {
        if str_eq(self.file.as_str(), query) {
            return true;
        }
        let fp = self.full_path();
        str_eq(fp.as_str(), query)
    }

    /// Keeps only the first record of each `directory + file` key,
    /// preserving the order of the survivors.
    pub fn deduplicate_with_retain_first(compile_commands: Vec<CompileCommand>) -> (r: Vec<
        CompileCommand,
    >)
        ensures
            r@ == dedup_entries_first(compile_commands@),
    {
        let ghost orig = compile_commands@;
        let n = compile_commands.len();
        let mut v = compile_commands;
        let mut out: Vec<CompileCommand> = Vec::new();
        let mut seen: Vec<String> = Vec::new();
        let mut i: usize = 0;
        proof {
            assert(v@ =~= orig.skip(0));
            assert(orig.take(0) =~= Seq::<CompileCommand>::empty());
        }
        while v.len() > 0
            invariant
                0 <= i <= n,
                n == orig.len(),
                i + v@.len() == orig.len(),
                v@ =~= orig.skip(i as int),
                out@ == dedup_entries_first(orig.take(i as int)),
                forall|k: Seq<char>| #[trigger]
                    seen.deep_view().contains(k) == keys_contain(orig.take(i as int), k),
            decreases v@.len(),
        {
            let ghost old_seen = seen.deep_view();
            let cc = v.remove(0);
            proof {
                assert(cc == orig[i as int]);
                assert(v@ =~= orig.skip(i + 1));
            }
            let key = cc.key_string();
            let present = contains_string(&seen, key.as_str());
            proof {
                assert(orig.take(i + 1).drop_last() =~= orig.take(i as int));
                assert(orig.take(i + 1).last() == orig[i as int]);
                assert(present == keys_contain(orig.take(i as int), orig[i as int].spec_key()));
            }
            if !present {
                let ghost kv = key@;
                let ghost old_out = out@;
                seen.push(key);
                out.push(cc);
                proof {
                    assert(seen.deep_view() =~= old_seen.push(kv));
                    assert forall|k: Seq<char>| #[trigger]
                        seen.deep_view().contains(k) == keys_contain(orig.take(i + 1), k) by {
                        lemma_contains_push(old_seen, kv, k);
                        lemma_keys_contain_push(orig.take(i as int), orig[i as int], k);
                        assert(orig.take(i as int).push(orig[i as int]) =~= orig.take(i + 1));
                    }
                }
            } else {
                proof {
                    assert forall|k: Seq<char>| #[trigger]
                        seen.deep_view().contains(k) == keys_contain(orig.take(i + 1), k) by {
                        lemma_keys_contain_push(orig.take(i as int), orig[i as int], k);
                        assert(orig.take(i as int).push(orig[i as int]) =~= orig.take(i + 1));
                    }
                }
            }
            i = i + 1;
        }
        proof {
            assert(orig.take(orig.len() as int) =~= orig);
        }
        out
    }

    /// Keeps only the last record of each `directory + file` key,
    /// preserving the order of the survivors.
    pub fn deduplicate_with_retain_last(compile_commands: Vec<CompileCommand>) -> (r: Vec<
        CompileCommand,
    >)
        ensures
            r@ == dedup_entries_last(compile_commands@),
    {
        let ghost orig = compile_commands@;
        let n = compile_commands.len();
        let mut keys: Vec<String> = Vec::new();
        let mut idx: usize = 0;
        while idx < n
            invariant
                0 <= idx <= n,
                n == orig.len(),
                compile_commands@ == orig,
                keys@.len() == idx,
                forall|j: int| 0 <= j < idx ==> keys.deep_view()[j] == orig[j].spec_key(),
            decreases n - idx,
        {
            let k = compile_commands[idx].key_string();
            let ghost kv = k@;
            let ghost old_keys = keys.deep_view();
            keys.push(k);
            proof {
                assert(keys.deep_view() =~= old_keys.push(kv));
            }
            idx = idx + 1;
        }
        let mut v = compile_commands;
        let mut out: Vec<CompileCommand> = Vec::new();
        let mut i: usize = 0;
        proof {
            assert(v@ =~= orig.skip(0));
        }
        while v.len() > 0
            invariant
                0 <= i <= orig.len(),
                i + v@.len() == orig.len(),
                n == orig.len(),
                v@ =~= orig.skip(i as int),
                keys@.len() == n,
                forall|j: int| 0 <= j < n ==> keys.deep_view()[j] == orig[j].spec_key(),
                dedup_entries_last(orig) =~= out@ + dedup_entries_last(orig.skip(i as int)),
            decreases v@.len(),
        {
            let cc = v.remove(0);
            proof {
                assert(cc == orig[i as int]);
                assert(v@ =~= orig.skip(i + 1));
            }
            let key = cc.key_string();
            let mut later = false;
            let mut j: usize = i + 1;
            while j < n
                invariant
                    i + 1 <= j <= n,
                    n == orig.len(),
                    keys@.len() == n,
                    forall|jj: int| 0 <= jj < n ==> keys.deep_view()[jj] == orig[jj].spec_key(),
                    key@ == orig[i as int].spec_key(),
                    later == exists|jj: int|
                        i + 1 <= jj < j && orig[jj].spec_key() == orig[i as int].spec_key(),
                decreases n - j,
            {
                proof {
                    assert(keys.deep_view()[j as int] == keys@[j as int]@);
                }
                if str_eq(keys[j].as_str(), key.as_str()) {
                    proof {
                        assert(orig[j as int].spec_key() == orig[i as int].spec_key());
                    }
                    later = true;
                }
                j = j + 1;
            }
            proof {
                assert(later == keys_contain(orig.skip(i + 1), orig[i as int].spec_key())) by {
                    if later {
                        let jj = choose|jj: int|
                            i + 1 <= jj < n && orig[jj].spec_key() == orig[i as int].spec_key();
                        assert(orig.skip(i + 1)[jj - i - 1].spec_key() == orig[
                            i as int
                        ].spec_key());
                    }
                    if keys_contain(orig.skip(i + 1), orig[i as int].spec_key()) {
                        let m = choose|m: int|
                            0 <= m < orig.skip(i + 1).len() && (#[trigger] orig.skip(i + 1)[m]).spec_key()
                                == orig[i as int].spec_key();
                        assert(orig[m + i + 1].spec_key() == orig[i as int].spec_key());
                    }
                }
                assert(orig.skip(i as int).len() > 0);
                assert(orig.skip(i as int)[0] == orig[i as int]);
                assert(orig.skip(i as int).skip(1) =~= orig.skip(i + 1));
            }
            if !later {
                out.push(cc);
                proof {
                    assert(dedup_entries_last(orig.skip(i as int)) =~= seq![orig[i as int]]
                        + dedup_entries_last(orig.skip(i + 1)));
                }
            } else {
                proof {
                    assert(dedup_entries_last(orig.skip(i as int)) =~= dedup_entries_last(
                        orig.skip(i + 1),
                    ));
                }
            }
            i = i + 1;
        }
        proof {
            assert(orig.skip(orig.len() as int).len() == 0);
        }
        out
    }
}

/// How records sharing a `directory + file` key are reconciled.
#[derive(Debug, Clone, Copy, PartialEq, Eq)]
pub enum DedupPolicy {
    /// Leave every record in place, duplicates included.
    Keep,
    /// Keep the first record of each key.
    RetainFirst,
    /// Keep the last record of each key.
    RetainLast,
}

/// The collection after applying the chosen duplicate policy.
pub open spec fn dedup_with_policy(s: Seq<CompileCommand>, p: DedupPolicy) -> Seq<CompileCommand> {
    match p {
        DedupPolicy::Keep => s,
        DedupPolicy::RetainFirst => dedup_entries_first(s),
        DedupPolicy::RetainLast => dedup_entries_last(s),
    }
}

/// Applies the chosen duplicate policy to the collection.
pub fn deduplicate_with_policy(compile_commands: Vec<CompileCommand>, policy: DedupPolicy) -> (r:
    Vec<CompileCommand>)
    ensures
        r@ == dedup_with_policy(compile_commands@, policy),
{
    match policy {
        DedupPolicy::Keep => compile_commands,
        DedupPolicy::RetainFirst => CompileCommand::deduplicate_with_retain_first(compile_commands),
        DedupPolicy::RetainLast => CompileCommand::deduplicate_with_retain_last(compile_commands),
    }
}

/// Concatenates a further batch of records onto the collection, in
/// source order; nothing is overwritten or deduplicated here.
pub fn append_entries(compile_commands: &mut Vec<CompileCommand>, additional: Vec<CompileCommand>)
    ensures
        final(compile_commands)@ == old(compile_commands)@ + additional@,
{
    let mut add = additional;
    compile_commands.append(&mut add);
}

/// With no patterns configured, the ignore filter keeps everything.
pub proof fn lemma_filter_ignored_empty(s: Seq<CompileCommand>, pats: Seq<Seq<char>>)
    requires
        pats.len() == 0,
    ensures
        filter_ignored(s, pats) == s,
    decreases s.len(),
{
    reveal(Seq::filter);
    if s.len() > 0 {
        lemma_filter_ignored_empty(s.drop_last(), pats);
        assert(!any_found(pats, s.last().spec_full_path()));
        assert(s.drop_last().push(s.last()) =~= s);
    }
}

impl CompileCommand {
    /// Drops every record whose `directory + "/" + file` is matched by
    /// any of the configured ignore patterns; with no patterns the
    /// collection is left as it is.  Fails, changing nothing, exactly
    /// when one of the patterns is not a valid regular expression; the
    /// error carries the first such pattern.
    pub fn process_config(
        compile_commands: &mut Vec<CompileCommand>,
        ppc: &PostProcessConfig,
    ) -> (r: Result<(), PatternError>)
        ensures
            r is Ok <==> all_accepted(ppc.ignore_files.deep_view()),
            r is Ok ==> final(compile_commands)@ == filter_ignored(
                old(compile_commands)@,
                ppc.ignore_files.deep_view(),
            ),
            r is Err ==> final(compile_commands)@ == old(compile_commands)@,
            r is Err ==> (r->Err_0).pattern@ == ppc.ignore_files.deep_view()[first_rejected(
                ppc.ignore_files.deep_view(),
            )],
    {
        let ghost pats = ppc.ignore_files.deep_view();
        if ppc.ignore_files.is_empty() {
            proof {
                lemma_filter_ignored_empty(compile_commands@, pats);
            }
            return Ok(());
        }
        let matchers = match compile_all(&ppc.ignore_files) {
            Ok(m) => m,
            Err(e) => {
                return Err(e);
            },
        };
        let ghost orig = compile_commands@;
        let ghost pred = |cc: CompileCommand| !any_found(pats, cc.spec_full_path());
        let n = compile_commands.len();
        let mut out: Vec<CompileCommand> = Vec::new();
        let mut i: usize = 0;
        proof {
            reveal(Seq::filter);
            assert(compile_commands@ =~= orig.skip(0));
            assert(orig.take(0) =~= Seq::<CompileCommand>::empty());
            assert(out@ =~= orig.take(0).filter(pred));
        }
        while compile_commands.len() > 0
            invariant
                0 <= i <= n,
                n == orig.len(),
                i + compile_commands@.len() == orig.len(),
                compile_commands@ =~= orig.skip(i as int),
                pats == ppc.ignore_files.deep_view(),
                matchers@.len() == pats.len(),
                forall|j: int| 0 <= j < pats.len() ==> matchers@[j].pattern_view() == pats[j],
                pred == (|cc: CompileCommand| !any_found(pats, cc.spec_full_path())),
                out@ == orig.take(i as int).filter(pred),
            decreases compile_commands@.len(),
        {
            let cc = compile_commands.remove(0);
            proof {
                assert(cc == orig[i as int]);
                assert(compile_commands@ =~= orig.skip(i + 1));
            }
            let path = cc.full_path();
            let hit = matches_any(&matchers, path.as_str());
            proof {
                let t = orig[i as int].spec_full_path();
                assert(hit == any_found(pats, t)) by {
                    if hit {
                        let j = choose|j: int|
                            0 <= j < matchers@.len() && crate::pattern::regex_found(
                                matchers@[j].pattern_view(),
                                t,
                            );
                        assert(crate::pattern::regex_found(pats[j], t));
                    }
                    if any_found(pats, t) {
                        let j = choose|j: int|
                            0 <= j < pats.len() && crate::pattern::regex_found(pats[j], t);
                        assert(crate::pattern::regex_found(matchers@[j].pattern_view(), t));
                    }
                }
                reveal(Seq::filter);
                assert(orig.take(i + 1).drop_last() =~= orig.take(i as int));
                assert(orig.take(i + 1).last() == orig[i as int]);
            }
            if !hit {
                out.push(cc);
            }
            i = i + 1;
        }
        proof {
            assert(orig.take(orig.len() as int) =~= orig);
        }
        *compile_commands = out;
        Ok(())
    }
}

// ---------------------------------------------------------------------------
// Source file recognition
// ---------------------------------------------------------------------------

/// `name` carries one of the recognized C++ source extensions.
pub open spec fn is_cpp_source(name: Seq<char>) -> bool {
    ||| crate::text::ends_with(name, seq!['.', 'c', 'p', 'p'])
    ||| crate::text::ends_with(name, seq!['.', 'c', 'x', 'x'])
    ||| crate::text::ends_with(name, seq!['.', 'c', 'c'])
    ||| crate::text::ends_with(name, seq!['.', 'c', '+', '+'])
    ||| crate::text::ends_with(name, seq!['.', 'C'])
}

/// Whether the file name carries a recognized C++ source extension.
pub fn is_cpp_file(filename: &str) -> (r: bool)
    ensures
        r == is_cpp_source(filename@),
{
    proof {
        reveal_strlit(".cpp");
        reveal_strlit(".cxx");
        reveal_strlit(".cc");
        reveal_strlit(".c++");
        reveal_strlit(".C");
        assert((".cpp"@) =~= seq!['.', 'c', 'p', 'p']);
        assert((".cxx"@) =~= seq!['.', 'c', 'x', 'x']);
        assert((".cc"@) =~= seq!['.', 'c', 'c']);
        assert((".c++"@) =~= seq!['.', 'c', '+', '+']);
        assert((".C"@) =~= seq!['.', 'C']);
    }
    crate::text::str_ends_with(filename, ".cpp") || crate::text::str_ends_with(filename, ".cxx")
        || crate::text::str_ends_with(filename, ".cc") || crate::text::str_ends_with(
        filename,
        ".c++",
    ) || crate::text::str_ends_with(filename, ".C")
}

/// The full paths of the records whose file is a C++ source, in order.
pub open spec fn cpp_paths(s: Seq<CompileCommand>) -> Seq<Seq<char>> {
    s.filter(|cc: CompileCommand| is_cpp_source(cc.file@)).map_values(
        |cc: CompileCommand| cc.spec_full_path(),
    )
}

/// Collects `directory + "/" + file` for every record whose file is a
/// recognized C++ source, preserving order.
pub fn cpp_file_paths(compile_commands: &Vec<CompileCommand>) -> (r: Vec<String>)
    ensures
        r.deep_view() == cpp_paths(compile_commands@),
{
    let ghost orig = compile_commands@;
    let ghost pred = |cc: CompileCommand| is_cpp_source(cc.file@);
    let mut out: Vec<String> = Vec::new();
    let mut i: usize = 0;
    proof {
        reveal(Seq::filter);
        assert(orig.take(0) =~= Seq::<CompileCommand>::empty());
        assert(out.deep_view() =~= cpp_paths(orig.take(0)));
    }
    while i < compile_commands.len()
        invariant
            0 <= i <= orig.len(),
            compile_commands@ == orig,
            pred == (|cc: CompileCommand| is_cpp_source(cc.file@)),
            out.deep_view() == cpp_paths(orig.take(i as int)),
        decreases orig.len() - i,
    {
        let keep = is_cpp_file(compile_commands[i].file.as_str());
        proof {
            reveal(Seq::filter);
            assert(orig.take(i + 1).drop_last() =~= orig.take(i as int));
            assert(orig.take(i + 1).last() == orig[i as int]);
        }
        if keep {
            let path = compile_commands[i].full_path();
            let ghost pv = path@;
            let ghost old_out = out.deep_view();
            out.push(path);
            proof {
                assert(out.deep_view() =~= old_out.push(pv));
                let f0 = orig.take(i as int).filter(pred);
                let f1 = orig.take(i + 1).filter(pred);
                assert(f1 =~= f0.push(orig[i as int]));
                assert(f1.map_values(|cc: CompileCommand| cc.spec_full_path()) =~= f0.map_values(
                    |cc: CompileCommand| cc.spec_full_path(),
                ).push(orig[i as int].spec_full_path()));
            }
        } else {
            proof {
                assert(orig.take(i + 1).filter(pred) =~= orig.take(i as int).filter(pred));
            }
        }
        i = i + 1;
    }
    proof {
        assert(orig.take(orig.len() as int) =~= orig);
    }
    out
}

} // verus!
