use vstd::prelude::*;
use vstd::std_specs::iter::IteratorSpec;
use vstd::string::*;

verus! {

broadcast use {axiom_spec_iter, next_postcondition};

/// The characters of `s`, in order.
pub fn chars_of(s: &str) -> (r: Vec<char>)
    ensures
        r@ == s@,
{
    let mut it = s.chars();
    let mut out: Vec<char> = Vec::new();
    loop
        invariant
            it.obeys_prophetic_iter_laws(),
            out@ + it.remaining() == s@,
            it.decrease() is Some,
        decreases it.decrease()->0,
    {
        let ghost before = it.remaining();
        match it.next() {
            Some(c) => {
                assert(out@.push(c) + it.remaining() =~= out@ + before);
                out.push(c);
            },
            None => {
                assert(out@ =~= s@);
                return out;
            },
        }
    }
}

/// One step of the scanner: the state is (inside a string literal, next
/// character escaped). A backslash escapes the next character anywhere.
pub open spec fn scan_step(st: (bool, bool), c: char) -> (bool, bool) {
    if st.1 {
        (st.0, false)
    } else if c == '\\' {
        (st.0, true)
    } else if c == '"' {
        (!st.0, false)
    } else {
        (st.0, false)
    }
}

/// Scanner state before `s[n]`.
pub open spec fn scan_state(s: Seq<char>, n: nat) -> (bool, bool)
    decreases n,
{
    if n == 0 || n > s.len() {
        (false, false)
    } else {
        scan_step(scan_state(s, (n - 1) as nat), s[n - 1])
    }
}

/// `s[i]` is neither escaped nor inside a string literal.
pub open spec fn structural(s: Seq<char>, i: nat) -> bool {
    !scan_state(s, i).0 && !scan_state(s, i).1
}

/// Number of structural occurrences of `c` in `s[0..n]`.
pub open spec fn count_structural(s: Seq<char>, n: nat, c: char) -> nat
    decreases n,
{
    if n == 0 || n > s.len() {
        0
    } else {
        count_structural(s, (n - 1) as nat, c) + if structural(s, (n - 1) as nat) && s[n - 1]
            == c {
            1nat
        } else {
            0nat
        }
    }
}

/// Counts the structural occurrences of `c` in `s`.
fn count_char_structural(s: &Vec<char>, c: char) -> (r: u32)
    requires
        s@.len() <= u32::MAX,
        c != '\\' && c != '"',
    ensures
        r == count_structural(s@, s@.len(), c),
{
    let mut count: u32 = 0;
    let mut in_string = false;
    let mut escape = false;
    let mut i: usize = 0;
    while i < s.len()
        invariant
            i <= s@.len() <= u32::MAX,
            (in_string, escape) == scan_state(s@, i as nat),
            count == count_structural(s@, i as nat, c),
            count <= i,
            c != '\\' && c != '"',
        decreases s@.len() - i,
    {
        let ch = s[i];
        if escape {
            escape = false;
        } else if ch == '\\' {
            escape = true;
        } else if ch == '"' {
            in_string = !in_string;
        } else if ch == c && !in_string {
            count += 1;
        }
        i += 1;
    }
    count
}

/// Number of objects: unescaped `{` outside string literals.
pub fn count_objects(json: &str) -> (r: u32)
    requires
        json@.len() <= u32::MAX,
    ensures
        r == count_structural(json@, json@.len(), '{'),
{
    count_char_structural(&chars_of(json), '{')
}

/// Number of arrays: unescaped `[` outside string literals.
pub fn count_arrays(json: &str) -> (r: u32)
    requires
        json@.len() <= u32::MAX,
    ensures
        r == count_structural(json@, json@.len(), '['),
{
    count_char_structural(&chars_of(json), '[')
}

/// (deepest nesting so far, current nesting) after `s[0..n]`, counting every
/// bracket, string literals included; closers at depth 0 are ignored.
pub open spec fn depth_state(s: Seq<char>, n: nat) -> (nat, nat)
    decreases n,
{
    if n == 0 || n > s.len() {
        (0, 0)
    } else {
        let (mx, cur) = depth_state(s, (n - 1) as nat);
        let c = s[n - 1];
        if c == '{' || c == '[' {
            if cur + 1 > mx {
                ((cur + 1) as nat, (cur + 1) as nat)
            } else {
                (mx, (cur + 1) as nat)
            }
        } else if (c == '}' || c == ']') && cur > 0 {
            (mx, (cur - 1) as nat)
        } else {
            (mx, cur)
        }
    }
}

/// Deepest bracket nesting of `json`.
pub fn json_depth(json: &str) -> (r: u32)
    requires
        json@.len() <= u32::MAX,
    ensures
        r == depth_state(json@, json@.len()).0,
{
    let s = chars_of(json);
    let mut max_depth: u32 = 0;
    let mut depth: u32 = 0;
    let mut i: usize = 0;
    while i < s.len()
        invariant
            s@ == json@,
            i <= s@.len() <= u32::MAX,
            (max_depth as nat, depth as nat) == depth_state(s@, i as nat),
            depth <= i,
        decreases s@.len() - i,
    {
        let ch = s[i];
        if ch == '{' || ch == '[' {
            depth += 1;
            if depth > max_depth {
                max_depth = depth;
            }
        } else if ch == '}' || ch == ']' {
            if depth > 0 {
                depth -= 1;
            }
        }
        i += 1;
    }
    max_depth
}

/// (keys at nesting depth one, structural nesting depth) after `s[0..n]`.
pub open spec fn keys_state(s: Seq<char>, n: nat) -> (nat, int)
    decreases n,
{
    if n == 0 || n > s.len() {
        (0, 0)
    } else {
        let (keys, depth) = keys_state(s, (n - 1) as nat);
        let c = s[n - 1];
        if !structural(s, (n - 1) as nat) {
            (keys, depth)
        } else if c == '{' || c == '[' {
            (keys, depth + 1)
        } else if c == '}' || c == ']' {
            (keys, depth - 1)
        } else if c == ':' && depth == 1 {
            ((keys + 1) as nat, depth)
        } else {
            (keys, depth)
        }
    }
}

/// Number of keys of the top-level object: structural `:` at depth one.
pub fn count_json_keys(json: &str) -> (r: u32)
    requires
        json@.len() <= u32::MAX,
    ensures
        r == keys_state(json@, json@.len()).0,
{
    let s = chars_of(json);
    let mut count: u32 = 0;
    let mut in_string = false;
    let mut escape = false;
    let mut depth: i64 = 0;
    let mut i: usize = 0;
    while i < s.len()
        invariant
            s@ == json@,
            i <= s@.len() <= u32::MAX,
            (in_string, escape) == scan_state(s@, i as nat),
            (count as nat, depth as int) == keys_state(s@, i as nat),
            count <= i,
            -i <= depth <= i,
        decreases s@.len() - i,
    {
        let ch = s[i];
        if escape {
            escape = false;
        } else if ch == '\\' {
            escape = true;
        } else if ch == '"' {
            in_string = !in_string;
        } else if !in_string {
            if ch == '{' || ch == '[' {
                depth += 1;
            } else if ch == '}' || ch == ']' {
                depth -= 1;
            } else if ch == ':' && depth == 1 {
                count += 1;
            }
        }
        i += 1;
    }
    count
}

/// `s[i]` is whitespace outside string literals, which minifying drops.
pub open spec fn droppable(s: Seq<char>, i: nat) -> bool {
    structural(s, i) && (s[i as int] == ' ' || s[i as int] == '\n' || s[i as int] == '\r' || s[i as int]
        == '\t')
}

/// `s[0..n]` without whitespace outside string literals.
pub open spec fn minify_spec(s: Seq<char>, n: nat) -> Seq<char>
    decreases n,
{
    if n == 0 || n > s.len() {
        Seq::empty()
    } else if droppable(s, (n - 1) as nat) {
        minify_spec(s, (n - 1) as nat)
    } else {
        minify_spec(s, (n - 1) as nat).push(s[n - 1])
    }
}

/// Relies on `String: FromIterator<char>`: the string of the characters, in order.
#[verifier::external_body]
pub(crate) fn string_of(chars: &Vec<char>) -> (r: String)
    ensures
        r@ == chars@,
{
    chars.iter().collect()
}

/// Removes whitespace outside string literals.
pub fn minify_json(json: &str) -> (r: String)
    ensures
        r@ == minify_spec(json@, json@.len()),
{
    let s = chars_of(json);
    let mut out: Vec<char> = Vec::new();
    let mut in_string = false;
    let mut escape = false;
    let mut i: usize = 0;
    while i < s.len()
        invariant
            s@ == json@,
            i <= s@.len(),
            (in_string, escape) == scan_state(s@, i as nat),
            out@ == minify_spec(s@, i as nat),
        decreases s@.len() - i,
    {
        let ch = s[i];
        if escape {
            out.push(ch);
            escape = false;
        } else if ch == '\\' {
            out.push(ch);
            escape = true;
        } else if ch == '"' {
            out.push(ch);
            in_string = !in_string;
        } else if !in_string && (ch == ' ' || ch == '\n' || ch == '\r' || ch == '\t') {
        } else {
            out.push(ch);
        }
        i += 1;
    }
    string_of(&out)
}

/// Bracket checking after `s[0..n]`: the open brackets as a stack, or `None`
/// once a closer did not match.
pub open spec fn bracket_stack(s: Seq<char>, n: nat) -> Option<Seq<char>>
    decreases n,
{
    if n == 0 || n > s.len() {
        Some(Seq::empty())
    } else {
        match bracket_stack(s, (n - 1) as nat) {
            None => None,
            Some(st) => {
                let c = s[n - 1];
                if !structural(s, (n - 1) as nat) {
                    Some(st)
                } else if c == '{' || c == '[' {
                    Some(st.push(c))
                } else if c == '}' || c == ']' {
                    if st.len() > 0 && st.last() == (if c == '}' { '{' } else { '[' }) {
                        Some(st.drop_last())
                    } else {
                        None
                    }
                } else {
                    Some(st)
                }
            },
        }
    }
}

/// Brackets are balanced and properly nested outside string literals, and no
/// string literal is left open.
pub open spec fn json_valid(s: Seq<char>) -> bool {
    &&& bracket_stack(s, s.len()) == Some(Seq::<char>::empty())
    &&& !scan_state(s, s.len()).0
}

/// Structural validation of JSON text. Whitespace around the text does not
/// change the outcome, so none is trimmed.
pub fn is_valid_json(json: &str) -> (r: bool)
    ensures
        r == json_valid(json@),
{
    let s = chars_of(json);
    let mut stack: Vec<char> = Vec::new();
    let mut in_string = false;
    let mut escape = false;
    let mut i: usize = 0;
    while i < s.len()
        invariant
            s@ == json@,
            i <= s@.len(),
            (in_string, escape) == scan_state(s@, i as nat),
            bracket_stack(s@, i as nat) == Some(stack@),
        decreases s@.len() - i,
    {
        let ch = s[i];
        if escape {
            escape = false;
        } else if ch == '\\' {
            escape = true;
        } else if ch == '"' {
            in_string = !in_string;
        } else if !in_string {
            if ch == '{' || ch == '[' {
                stack.push(ch);
            } else if ch == '}' || ch == ']' {
                let want = if ch == '}' { '{' } else { '[' };
                match stack.pop() {
                    Some(top) => {
                        if top != want {
                            proof {
                                lemma_broken_stays(s@, (i + 1) as nat, s@.len());
                            }
                            return false;
                        }
                    },
                    None => {
                        proof {
                            lemma_broken_stays(s@, (i + 1) as nat, s@.len());
                        }
                        return false;
                    },
                }
            }
        }
        i += 1;
    }
    proof {
        if stack@.len() == 0 {
            assert(stack@ =~= Seq::<char>::empty());
        }
    }
    stack.len() == 0 && !in_string
}

proof fn lemma_broken_stays(s: Seq<char>, n: nat, m: nat)
    requires
        n <= m <= s.len(),
        bracket_stack(s, n) is None,
    ensures
        bracket_stack(s, m) is None,
    decreases m - n,
{
    if n < m {
        lemma_broken_stays(s, n, (m - 1) as nat);
    }
}

/// `k` spaces.
pub open spec fn spaces(k: nat) -> Seq<char> {
    Seq::new(k, |i: int| ' ')
}

/// Structural nesting depth before `s[n]`.
pub open spec fn nesting(s: Seq<char>, n: nat) -> int {
    keys_state(s, n).1
}

/// Pretty-printed `s[0..n]` with `indent` spaces per level.
pub open spec fn beautify_spec(s: Seq<char>, n: nat, indent: nat) -> Seq<char>
    decreases n,
{
    if n == 0 || n > s.len() {
        Seq::empty()
    } else {
        let prev = beautify_spec(s, (n - 1) as nat, indent);
        let i = (n - 1) as nat;
        let c = s[i as int];
        let d = nesting(s, i);
        if !structural(s, i) || c == '\\' || c == '"' {
            prev.push(c)
        } else if c == '{' || c == '[' {
            prev.push(c).push('\n') + spaces((indent * (d + 1)) as nat)
        } else if c == '}' || c == ']' {
            prev.push('\n') + spaces((indent * (d - 1)) as nat) + seq![c]
        } else if c == ',' {
            prev.push(c).push('\n') + spaces((indent * d) as nat)
        } else if c == ':' {
            prev.push(c).push(' ')
        } else if c == ' ' || c == '\n' || c == '\r' || c == '\t' {
            prev
        } else {
            prev.push(c)
        }
    }
}

/// Some structural closer in `s` has no opener before it.
pub open spec fn unmatched_closer(s: Seq<char>) -> bool {
    exists|k: nat| k <= s.len() && #[trigger] nesting(s, k) < 0
}

fn push_indent(out: &mut Vec<char>, indent: usize, depth: usize)
    ensures
        final(out)@ == old(out)@ + spaces((indent * depth) as nat),
{
    let mut k: usize = 0;
    while k < depth
        invariant
            k <= depth,
            out@ == old(out)@ + spaces((k * indent) as nat),
        decreases depth - k,
    {
        let mut t: usize = 0;
        while t < indent
            invariant
                k < depth,
                t <= indent,
                out@ == old(out)@ + spaces((k * indent + t) as nat),
            decreases indent - t,
        {
            assert(old(out)@ + spaces((k * indent + t + 1) as nat) =~= (old(out)@ + spaces(
                (k * indent + t) as nat,
            )).push(' '));
            out.push(' ');
            t += 1;
        }
        assert((k + 1) * indent == k * indent + indent) by (nonlinear_arith);
        k += 1;
    }
    assert(depth * indent == indent * depth) by (nonlinear_arith);
}

/// Pretty-prints JSON text with `indent_size` spaces per nesting level; `None`
/// when a closing bracket outside string literals has no opening one.
pub fn beautify_json(json: &str, indent_size: usize) -> (r: Option<String>)
    ensures
        r is None <==> unmatched_closer(json@),
        r is Some ==> r->Some_0@ == beautify_spec(json@, json@.len(), indent_size as nat),
{
    let s = chars_of(json);
    let mut out: Vec<char> = Vec::new();
    let mut in_string = false;
    let mut escape = false;
    let mut depth: usize = 0;
    let mut i: usize = 0;
    while i < s.len()
        invariant
            s@ == json@,
            i <= s@.len(),
            (in_string, escape) == scan_state(s@, i as nat),
            depth as int == nesting(s@, i as nat),
            depth <= i,
            forall|k: nat| k <= i ==> #[trigger] nesting(s@, k) >= 0,
            out@ == beautify_spec(s@, i as nat, indent_size as nat),
        decreases s@.len() - i,
    {
        let ch = s[i];
        if escape {
            out.push(ch);
            escape = false;
        } else if ch == '\\' {
            out.push(ch);
            escape = true;
        } else if ch == '"' {
            out.push(ch);
            in_string = !in_string;
        } else if !in_string && (ch == '{' || ch == '[') {
            out.push(ch);
            depth += 1;
            out.push('\n');
            push_indent(&mut out, indent_size, depth);
        } else if !in_string && (ch == '}' || ch == ']') {
            if depth == 0 {
                assert(nesting(s@, (i + 1) as nat) < 0);
                return None;
            }
            depth -= 1;
            out.push('\n');
            push_indent(&mut out, indent_size, depth);
            out.push(ch);
        } else if !in_string && ch == ',' {
            out.push(ch);
            out.push('\n');
            push_indent(&mut out, indent_size, depth);
        } else if !in_string && ch == ':' {
            out.push(ch);
            out.push(' ');
        } else if !in_string && (ch == ' ' || ch == '\n' || ch == '\r' || ch == '\t') {
        } else {
            out.push(ch);
        }
        proof {
            assert forall|k: nat| k <= i + 1 implies #[trigger] nesting(s@, k) >= 0 by {
                if k == i + 1 {
                    assert(nesting(s@, k) == depth);
                }
            }
        }
        i += 1;
    }
    Some(string_of(&out))
}

} // verus!
