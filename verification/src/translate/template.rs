//! Which prompt templates are taken: text with the recognized
//! substitutions in it, and nothing else that the template engine would
//! run.
use vstd::prelude::*;
use vstd::string::StrSliceExecFns;

verus! {

/// The tags that a template may hold, each written out in full: the
/// recognized variables on their own, the lists joined, and the frame that
/// shows the previous context only where there is one.
pub open spec fn allowed_tags() -> Seq<Seq<char>> {
    seq![
        "{{ source_language }}"@,
        "{{source_language}}"@,
        "{{- source_language -}}"@,
        "{{ target_language }}"@,
        "{{target_language}}"@,
        "{{- target_language -}}"@,
        "{{ source_text }}"@,
        "{{source_text}}"@,
        "{{- source_text -}}"@,
        "{{ special_tokens }}"@,
        "{{special_tokens}}"@,
        "{{ previous_chunks }}"@,
        "{{previous_chunks}}"@,
        "{{ special_tokens | join(\" , \") }}"@,
        "{{ special_tokens | join(\", \") }}"@,
        "{{ special_tokens | join(\" \") }}"@,
        "{{ previous_chunks | join(\"\\n\\n\") }}"@,
        "{{ previous_chunks | join(\"\\n\") }}"@,
        "{{ previous_chunks | join(\" \") }}"@,
        "{%- set previous_chunks = previous_chunks[-8:] -%}"@,
        "{% set previous_chunks = previous_chunks[-8:] %}"@,
        "{%- if previous_chunks -%}"@,
        "{% if previous_chunks -%}"@,
        "{% if previous_chunks %}"@,
        "{%- else -%}"@,
        "{% else -%}"@,
        "{% else %}"@,
        "{%- endif -%}"@,
        "{% endif -%}"@,
        "{% endif %}"@,
    ]
}

/// `tag` stands in `text` at position `at`.
pub open spec fn has_at(text: Seq<char>, at: int, tag: Seq<char>) -> bool {
    0 <= at && at + tag.len() <= text.len() && text.subrange(at, at + tag.len()) == tag
}

/// The length of the first of `tags`, from the `k`-th on, that stands in
/// `text` at position `at`; 0 where none does.
pub open spec fn tag_length(text: Seq<char>, at: int, tags: Seq<Seq<char>>, k: int) -> nat
    decreases tags.len() - k,
{
    if k < 0 || k >= tags.len() {
        0
    } else if has_at(text, at, tags[k]) {
        tags[k].len()
    } else {
        tag_length(text, at, tags, k + 1)
    }
}

/// A tag of the template engine begins at position `at`: a brace followed
/// by a brace, a percent sign or a hash.
pub open spec fn tag_begins(text: Seq<char>, at: int) -> bool {
    &&& 0 <= at
    &&& at + 1 < text.len()
    &&& text[at] == '{'
    &&& (text[at + 1] == '{' || text[at + 1] == '%' || text[at + 1] == '#')
}

/// From position `at` on, every tag that begins in `text` is one of the
/// allowed tags, written as the list has it.
pub open spec fn accepted_from(text: Seq<char>, at: int) -> bool
    decreases text.len() - at,
{
    if at < 0 || at >= text.len() {
        true
    } else if tag_begins(text, at) {
        let length = tag_length(text, at, allowed_tags(), 0);
        if length > 0 && at + length <= text.len() {
            accepted_from(text, at + length)
        } else {
            false
        }
    } else {
        accepted_from(text, at + 1)
    }
}

/// The template is taken: it is text in which every tag is one of the
/// allowed tags. Such a template only puts the recognized variables into
/// the text; it runs no filter but `join`, no test, no function and no loop.
pub open spec fn template_accepted(text: Seq<char>) -> bool {
    accepted_from(text, 0)
}

/// The views of a list of texts.
pub open spec fn tag_texts(tags: Seq<&'static str>) -> Seq<Seq<char>> {
    tags.map_values(|tag: &'static str| tag@)
}

/// The allowed tags, to compare with.
fn allowed_tag_list() -> (tags: Vec<&'static str>)
    ensures
        tag_texts(tags@) == allowed_tags(),
{
    let mut tags: Vec<&'static str> = Vec::new();
    tags.push("{{ source_language }}");
    tags.push("{{source_language}}");
    tags.push("{{- source_language -}}");
    tags.push("{{ target_language }}");
    tags.push("{{target_language}}");
    tags.push("{{- target_language -}}");
    tags.push("{{ source_text }}");
    tags.push("{{source_text}}");
    tags.push("{{- source_text -}}");
    tags.push("{{ special_tokens }}");
    tags.push("{{special_tokens}}");
    tags.push("{{ previous_chunks }}");
    tags.push("{{previous_chunks}}");
    tags.push("{{ special_tokens | join(\" , \") }}");
    tags.push("{{ special_tokens | join(\", \") }}");
    tags.push("{{ special_tokens | join(\" \") }}");
    tags.push("{{ previous_chunks | join(\"\\n\\n\") }}");
    tags.push("{{ previous_chunks | join(\"\\n\") }}");
    tags.push("{{ previous_chunks | join(\" \") }}");
    tags.push("{%- set previous_chunks = previous_chunks[-8:] -%}");
    tags.push("{% set previous_chunks = previous_chunks[-8:] %}");
    tags.push("{%- if previous_chunks -%}");
    tags.push("{% if previous_chunks -%}");
    tags.push("{% if previous_chunks %}");
    tags.push("{%- else -%}");
    tags.push("{% else -%}");
    tags.push("{% else %}");
    tags.push("{%- endif -%}");
    tags.push("{% endif -%}");
    tags.push("{% endif %}");
    assert(tag_texts(tags@) =~= allowed_tags());
    tags
}

/// The characters of a text, one by one.
fn characters(text: &str) -> (chars: Vec<char>)
    ensures
        chars@ == text@,
{
    let mut chars: Vec<char> = Vec::new();
    for c in it: text.chars()
        invariant
            it.seq() == text@,
            chars@ == text@.take(it.index() as int),
    {
        chars.push(c);
        assert(chars@ =~= text@.take(it.index() + 1));
    }
    assert(text@.take(text@.len() as int) =~= text@);
    chars
}

/// Tells whether `tag` stands in `text` at position `at`.
fn stands_at(text: &Vec<char>, at: usize, tag: &Vec<char>) -> (found: bool)
    ensures
        found == has_at(text@, at as int, tag@),
{
    if at > text.len() || tag.len() > text.len() - at {
        return false;
    }
    let n = text.len();
    let mut j: usize = 0;
    while j < tag.len()
        invariant
            j <= tag@.len(),
            n == text@.len(),
            at + tag@.len() <= text@.len(),
            forall|k: int| 0 <= k < j ==> text@[at + k] == tag@[k],
        decreases tag.len() - j,
    {
        if text[at + j] != tag[j] {
            assert(text@.subrange(at as int, at + tag@.len())[j as int] != tag@[j as int]);
            return false;
        }
        j = j + 1;
    }
    assert(text@.subrange(at as int, at + tag@.len()) =~= tag@);
    true
}

/// The length of the allowed tag that stands in `text` at position `at`;
/// 0 where none does.
fn allowed_length(text: &Vec<char>, at: usize, tags: &Vec<&'static str>) -> (length: usize)
    ensures
        length == tag_length(text@, at as int, tag_texts(tags@), 0),
        length > 0 ==> at + length <= text@.len(),
{
    let mut k: usize = 0;
    while k < tags.len()
        invariant
            k <= tags@.len(),
            tag_length(text@, at as int, tag_texts(tags@), 0) == tag_length(
                text@,
                at as int,
                tag_texts(tags@),
                k as int,
            ),
        decreases tags.len() - k,
    {
        let tag = characters(tags[k]);
        assert(tag_texts(tags@)[k as int] == tag@);
        if stands_at(text, at, &tag) {
            return tag.len();
        }
        k = k + 1;
    }
    0
}

/// Tells whether a prompt template is taken.
pub fn is_accepted(template: &str) -> (accepted: bool)
    ensures
        accepted == template_accepted(template@),
{
    let text = characters(template);
    let tags = allowed_tag_list();
    let n = text.len();
    let mut at: usize = 0;
    while at < n
        invariant
            at <= n,
            n == text@.len(),
            text@ == template@,
            tag_texts(tags@) == allowed_tags(),
            template_accepted(template@) == accepted_from(text@, at as int),
        decreases n - at,
    {
        let begins = text[at] == '{' && at + 1 < n && (text[at + 1] == '{' || text[at + 1] == '%'
            || text[at + 1] == '#');
        if begins {
            let length = allowed_length(&text, at, &tags);
            if length == 0 {
                return false;
            }
            at = at + length;
        } else {
            at = at + 1;
        }
    }
    true
}

} // verus!
