//! Logic of `yei init`: the edits made to the project's CSS entry file.

use vstd::prelude::*;
use crate::text::{
    chars_of, contains, contains_text, find, find_char_from, is_first_char_from,
    is_first_occurrence, is_white_space, lemma_occurs_between, occurs_at, string_from, string_take, trim_end_len, trim_end_ws,
};

verus! {

broadcast use vstd::string::group_string_axioms;

/// The import of the yei stylesheet.
pub const IMPORT_LINE: &'static str = "@import \"./yei.css\";";

/// The import of Tailwind that the yei import goes after.
pub const TAILWIND_IMPORT: &'static str = "@import \"tailwindcss\"";

/// The comment that marks the default design tokens.
pub const ROOT_MARKER: &'static str = "/* yei tokens */";

/// Default design tokens, as CSS custom properties.
pub const YEI_ROOT_TOKENS: &'static str = ":root {
  --background:            oklch(1 0 0);
  --foreground:            oklch(0.145 0 0);

  --primary:               oklch(0.205 0 0);
  --primary-foreground:    oklch(0.985 0 0);

  --secondary:             oklch(0.97 0 0);
  --secondary-foreground:  oklch(0.205 0 0);

  --danger:                oklch(0.577 0.245 27.325);
  --on-danger:             oklch(0.985 0 0);

  --muted:                 oklch(0.97 0 0);
  --muted-foreground:      oklch(0.205 0 0);

  --success:               oklch(0.527 0.154 150);
  --warning:               oklch(0.769 0.188 70);

  --field:                 oklch(0.97 0 0);
  --border:                oklch(0.922 0 0);
  --focus:                 oklch(0.708 0 0);

  --radius:                0.625rem;
}
";

/// Position of the first occurrence of `p` in `s`.
pub open spec fn first_position(s: Seq<char>, p: Seq<char>) -> int {
    choose|i: int| is_first_occurrence(s, p, i)
}

/// Position just past the end of the line that holds position `p`: after the
/// first line feed at or after `p`, or the end of the text.
pub open spec fn line_end_after(s: Seq<char>, p: int) -> int {
    if exists|j: int| is_first_char_from(s, '\n', p, j) {
        (choose|j: int| is_first_char_from(s, '\n', p, j)) + 1
    } else {
        s.len() as int
    }
}

/// A CSS entry file with the yei import added: on the line after the first
/// Tailwind import if there is one, else at the end after the trimmed text.
pub open spec fn with_import(s: Seq<char>) -> Seq<char> {
    if contains_text(s, TAILWIND_IMPORT@) {
        let end = line_end_after(s, first_position(s, TAILWIND_IMPORT@));
        s.take(end) + IMPORT_LINE@ + "\n"@ + s.skip(end)
    } else {
        trim_end_ws(s) + "\n"@ + IMPORT_LINE@ + "\n"@
    }
}

/// A CSS entry file with the default design tokens appended after a marker.
pub open spec fn with_tokens(s: Seq<char>) -> Seq<char> {
    trim_end_ws(s) + "\n"@ + "\n"@ + ROOT_MARKER@ + "\n"@ + YEI_ROOT_TOKENS@
}

/// The contents of a CSS entry file that `yei init` creates.
pub open spec fn new_entry() -> Seq<char> {
    TAILWIND_IMPORT@ + ";\n"@ + IMPORT_LINE@ + "\n"@
}

/// Two first occurrences are one.
proof fn lemma_first_occurrence_unique(s: Seq<char>, p: Seq<char>, i: int, j: int)
    requires
        is_first_occurrence(s, p, i),
        is_first_occurrence(s, p, j),
    ensures
        i == j,
{
}

/// Two first line feeds from the same position are one.
proof fn lemma_first_char_unique(s: Seq<char>, c: char, from: int, i: int, j: int)
    requires
        is_first_char_from(s, c, from, i),
        is_first_char_from(s, c, from, j),
    ensures
        i == j,
{
    if i < j {
        assert(s[i] == c);
    } else if j < i {
        assert(s[j] == c);
    }
}

/// The CSS entry file with the yei import added, or `None` when it already
/// imports the yei stylesheet.
pub fn add_import(existing: &str) -> (res: Option<String>)
    ensures
        match res {
            None => contains_text(existing@, IMPORT_LINE@),
            Some(t) => !contains_text(existing@, IMPORT_LINE@) && t@ == with_import(existing@),
        },
{
    let v = chars_of(existing);
    if contains(&v, &chars_of(IMPORT_LINE)) {
        return None;
    }
    match find(&v, &chars_of(TAILWIND_IMPORT)) {
        Some(pos) => {
            proof {
                assert(contains_text(v@, TAILWIND_IMPORT@));
                let q = first_position(v@, TAILWIND_IMPORT@);
                lemma_first_occurrence_unique(v@, TAILWIND_IMPORT@, q, pos as int);
            }
            let end = match find_char_from(&v, '\n', pos) {
                Some(n) => {
                    proof {
                        let m = choose|j: int| is_first_char_from(v@, '\n', pos as int, j);
                        lemma_first_char_unique(v@, '\n', pos as int, m, n as int);
                    }
                    assert(n < v.len());
                    n + 1
                },
                None => v.len(),
            };
            let mut out = string_take(&v, end);
            out.append(IMPORT_LINE);
            out.append("\n");
            out.append(string_from(&v, end).as_str());
            Some(out)
        },
        None => {
            let n = trim_end_len(&v);
            let mut out = string_take(&v, n);
            out.append("\n");
            out.append(IMPORT_LINE);
            out.append("\n");
            Some(out)
        },
    }
}

/// The CSS entry file with the default design tokens appended, or `None`
/// when it already holds them.
pub fn add_tokens(existing: &str) -> (res: Option<String>)
    ensures
        match res {
            None => contains_text(existing@, ROOT_MARKER@),
            Some(t) => !contains_text(existing@, ROOT_MARKER@) && t@ == with_tokens(existing@),
        },
{
    let v = chars_of(existing);
    if contains(&v, &chars_of(ROOT_MARKER)) {
        return None;
    }
    let n = trim_end_len(&v);
    let mut out = string_take(&v, n);
    out.append("\n");
    out.append("\n");
    out.append(ROOT_MARKER);
    out.append("\n");
    out.append(YEI_ROOT_TOKENS);
    Some(out)
}

/// The contents of the CSS entry file that `yei init` creates when there is
/// none: the Tailwind import, then the yei import.
pub fn new_entry_contents() -> (res: String)
    ensures
        res@ == new_entry(),
{
    let mut out = String::from_str(TAILWIND_IMPORT);
    out.append(";\n");
    out.append(IMPORT_LINE);
    out.append("\n");
    out
}

/// `t` is `s` without its trailing white space: a prefix of `s` followed in
/// `s` by white space only, and empty or ending in a character that is not
/// white space.
pub open spec fn is_trimmed_end(s: Seq<char>, t: Seq<char>) -> bool {
    &&& t.is_prefix_of(s)
    &&& forall|k: int| t.len() <= k < s.len() ==> is_white_space(#[trigger] s[k])
    &&& (t.len() == 0 || !is_white_space(t.last()))
}

/// Trimming the end removes exactly the trailing white space.
pub proof fn lemma_trim_end_ws_is(s: Seq<char>, t: Seq<char>)
    requires
        is_trimmed_end(s, t),
    ensures
        trim_end_ws(s) == t,
    decreases s.len(),
{
    if s.len() > t.len() {
        assert(is_white_space(s[s.len() - 1]));
        let s2 = s.drop_last();
        assert(t.is_prefix_of(s2)) by {
            assert(s2.subrange(0, t.len() as int) =~= s.subrange(0, t.len() as int));
        }
        assert forall|k: int| t.len() <= k < s2.len() implies is_white_space(#[trigger] s2[k]) by {
            assert(s2[k] == s[k]);
        }
        lemma_trim_end_ws_is(s2, t);
    } else {
        assert(s =~= t);
    }
}

/// Without a Tailwind import, the yei import is appended after all of the
/// file but its trailing white space.
pub proof fn law_import_appended(s: Seq<char>, t: Seq<char>)
    requires
        !contains_text(s, TAILWIND_IMPORT@),
        is_trimmed_end(s, t),
    ensures
        with_import(s) == t + "\n"@ + IMPORT_LINE@ + "\n"@,
{
    lemma_trim_end_ws_is(s, t);
}

/// With a Tailwind import, first found at `p`, the yei import goes in at `e`,
/// just past the first line feed at or after `p`, or at the end of the file
/// when none follows; the rest of the file is kept on both sides.
pub proof fn law_import_after_tailwind(s: Seq<char>, p: int, e: int)
    requires
        is_first_occurrence(s, TAILWIND_IMPORT@, p),
        (e == s.len() && forall|k: int| p <= k < s.len() ==> s[k] != '\n') || (p < e <= s.len()
            && s[e - 1] == '\n' && forall|k: int| p <= k < e - 1 ==> s[k] != '\n'),
    ensures
        with_import(s) == s.take(e) + IMPORT_LINE@ + "\n"@ + s.skip(e),
        p < e,
{
    assert(contains_text(s, TAILWIND_IMPORT@));
    let q = first_position(s, TAILWIND_IMPORT@);
    lemma_first_occurrence_unique(s, TAILWIND_IMPORT@, q, p);
    assert(TAILWIND_IMPORT@.len() > 0) by {
        reveal_strlit("@import \"tailwindcss\"");
    }
    if e == s.len() && forall|k: int| p <= k < s.len() ==> s[k] != '\n' {
        assert(!exists|j: int| is_first_char_from(s, '\n', p, j));
    } else {
        assert(is_first_char_from(s, '\n', p, e - 1));
        let m = choose|j: int| is_first_char_from(s, '\n', p, j);
        lemma_first_char_unique(s, '\n', p, m, e - 1);
    }
}

/// The tokens go after all of the file but its trailing white space, after a
/// blank line and the marker.
pub proof fn law_tokens_appended(s: Seq<char>, t: Seq<char>)
    requires
        is_trimmed_end(s, t),
    ensures
        with_tokens(s) == t + "\n"@ + "\n"@ + ROOT_MARKER@ + "\n"@ + YEI_ROOT_TOKENS@,
{
    lemma_trim_end_ws_is(s, t);
}

/// Adding the import is done once: the edited file imports the yei
/// stylesheet, so a second `yei init` leaves it as it is.
pub proof fn law_import_once(s: Seq<char>)
    ensures
        contains_text(with_import(s), IMPORT_LINE@),
{
    if contains_text(s, TAILWIND_IMPORT@) {
        let end = line_end_after(s, first_position(s, TAILWIND_IMPORT@));
        lemma_occurs_between(s.take(end), IMPORT_LINE@, "\n"@ + s.skip(end));
        assert(s.take(end) + IMPORT_LINE@ + ("\n"@ + s.skip(end)) =~= with_import(s));
    } else {
        lemma_occurs_between(trim_end_ws(s) + "\n"@, IMPORT_LINE@, "\n"@);
    }
}

/// A created entry file already imports the yei stylesheet.
pub proof fn law_new_entry_imports()
    ensures
        contains_text(new_entry(), IMPORT_LINE@),
{
    lemma_occurs_between(TAILWIND_IMPORT@ + ";\n"@, IMPORT_LINE@, "\n"@);
}

/// Adding the tokens is done once: the edited file holds the marker.
pub proof fn law_tokens_once(s: Seq<char>)
    ensures
        contains_text(with_tokens(s), ROOT_MARKER@),
{
    let a = trim_end_ws(s) + "\n"@ + "\n"@;
    let b = "\n"@ + YEI_ROOT_TOKENS@;
    lemma_occurs_between(a, ROOT_MARKER@, b);
    assert(a + ROOT_MARKER@ + b =~= with_tokens(s));
}

} // verus!
