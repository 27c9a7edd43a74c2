//! Small rules of the chat side.

use crate::json;
use crate::json::{JsonValue, get_i64, get_str};
use crate::rows;
use crate::text;
use crate::text::{
    CharClass, blank, clip, has, has_prefix, join_strings, owned, push_i64, push_text, replaced,
    split_lines, trimmed, trimmed_start,
};
use vstd::prelude::*;

verus! {

/// Texts that ask for a tool of the agent.
pub open spec fn agent_command(s: Seq<char>) -> bool {
    let raw = text::trim(s);
    ||| text::starts_with(raw, "读文件 "@)
    ||| text::starts_with(raw, "创建文件 "@)
    ||| text::starts_with(raw, "写文件 "@)
    ||| text::starts_with(raw, "read "@)
    ||| text::starts_with(raw, "create "@)
    ||| text::starts_with(raw, "write "@)
    ||| text::starts_with(raw, "帮我运行："@)
    ||| text::starts_with(raw, "帮我运行:"@)
    ||| text::starts_with(raw, "请帮我运行："@)
    ||| text::starts_with(raw, "请帮我运行:"@)
}

pub fn is_agent_command(text: &str) -> (r: bool)
    ensures
        r == agent_command(text@),
{
    let raw = trimmed(text);
    let s = raw.as_str();
    has_prefix(s, "读文件 ") || has_prefix(s, "创建文件 ") || has_prefix(s, "写文件 ") || has_prefix(
        s,
        "read ",
    ) || has_prefix(s, "create ") || has_prefix(s, "write ") || has_prefix(s, "帮我运行：")
        || has_prefix(s, "帮我运行:") || has_prefix(s, "请帮我运行：") || has_prefix(s, "请帮我运行:")
}

/// Errors of the model service that point to the credentials.
pub open spec fn llm_auth_error(err: Seq<char>) -> bool {
    text::contains(err, "HTTP 401"@) || text::contains(err, "Authentication Fails"@)
}

pub fn is_llm_auth_error(err: &str) -> (r: bool)
    ensures
        r == llm_auth_error(err@),
{
    has(err, "HTTP 401") || has(err, "Authentication Fails")
}

/// Lines of a report that name files of the machine.
pub open spec fn path_line(line: Seq<char>) -> bool {
    let core = text::trim_start(line);
    text::starts_with(core, "- output_path:"@) || text::starts_with(core, "- snapshot_path:"@) || text::starts_with(
        core,
        "- markdown_path:"@,
    )
}

pub open spec fn not_path_line() -> spec_fn(Seq<char>) -> bool {
    |line: Seq<char>| !path_line(line)
}

pub open spec fn sanitized_report(content: Seq<char>) -> Seq<char> {
    text::join(text::lines(content).filter(not_path_line()), "\n"@)
}

pub fn is_path_line(line: &str) -> (r: bool)
    ensures
        r == path_line(line@),
{
    let core = trimmed_start(line);
    let s = core.as_str();
    has_prefix(s, "- output_path:") || has_prefix(s, "- snapshot_path:") || has_prefix(
        s,
        "- markdown_path:",
    )
}

/// The report without the lines that name files of the machine.
pub fn sanitize_report_markdown_for_wechat(content: &str) -> (r: String)
    ensures
        r@ == sanitized_report(content@),
{
    let all = split_lines(content);
    let mut kept: Vec<String> = Vec::new();
    let mut i: usize = 0;
    let ghost ls = text::lines(content@);
    proof {
        assert(ls.take(0) =~= Seq::empty());
        reveal(Seq::filter);
        assert(text::texts(kept@) =~= Seq::<Seq<char>>::empty());
    }
    while i < all.len()
        invariant
            i <= all@.len(),
            text::texts(all@) == ls,
            text::texts(kept@) == ls.take(i as int).filter(not_path_line()),
        decreases all.len() - i,
    {
        let ghost before = ls.take(i as int);
        proof {
            assert(text::texts(all@).len() == all@.len());
            assert(ls[i as int] == all@[i as int]@);
            assert(ls.take(i + 1).drop_last() =~= before);
            reveal(Seq::filter);
        }
        if !is_path_line(all[i].as_str()) {
            push_text(&mut kept, all[i].as_str());
        }
        i = i + 1;
    }
    proof {
        assert(text::texts(all@).len() == all@.len());
        assert(ls.take(i as int) =~= ls);
    }
    join_strings(kept.as_slice(), "\n")
}

/// A report as it is answered names no file of the machine: every line of the report that
/// does is gone, and every other one stays, in order.
pub proof fn lemma_report_hides_paths(content: Seq<char>, line: Seq<char>)
    ensures
        text::lines(content).filter(not_path_line()).contains(line) <==> (text::lines(content).contains(line)
            && !path_line(line)),
{
    rows::lemma_filter_members(text::lines(content), not_path_line());
    let kept = text::lines(content).filter(not_path_line());
    if kept.contains(line) {
        let i = choose|i: int| 0 <= i < kept.len() && kept[i] == line;
        assert(text::lines(content).contains(kept[i]));
        assert(not_path_line()(kept[i]));
    }
    if text::lines(content).contains(line) && !path_line(line) {
        assert(not_path_line()(line));
        assert(kept.contains(line));
    }
}

/// What an answer of the service says of failure.
pub open spec fn answer_error(resp: JsonValue, action: Seq<char>) -> Option<Seq<char>> {
    let ret = match json::int_field(resp, "ret"@) {
        Some(n) => n,
        None => 0,
    };
    let errcode = match json::int_field(resp, "errcode"@) {
        Some(n) => n,
        None => 0,
    };
    if ret != 0 || errcode != 0 {
        Some(
            action + " 失败: ret="@ + text::signed_decimal(ret) + " errcode="@ + text::signed_decimal(errcode)
                + " errmsg="@ + text::text_or(json::text_field(resp, "errmsg"@), Seq::empty()),
        )
    } else {
        None
    }
}

/// An answer with a non-zero `ret` or `errcode` is a failure.
pub fn assert_ok(resp: &JsonValue, action: &str) -> (r: Result<(), String>)
    ensures
        match r {
            Ok(_) => answer_error(*resp, action@) is None,
            Err(e) => answer_error(*resp, action@) == Some(e@),
        },
{
    let ret: i64 = match get_i64(resp, "ret") {
        Some(n) => n,
        None => 0,
    };
    let errcode: i64 = match get_i64(resp, "errcode") {
        Some(n) => n,
        None => 0,
    };
    if ret != 0 || errcode != 0 {
        let errmsg = match get_str(resp, "errmsg") {
            Some(s) => s,
            None => String::new(),
        };
        let mut m = owned(action);
        m.append(" 失败: ret=");
        push_i64(&mut m, ret);
        m.append(" errcode=");
        push_i64(&mut m, errcode);
        m.append(" errmsg=");
        m.append(errmsg.as_str());
        proof {
            assert(errmsg@ =~= text::text_or(json::text_field(*resp, "errmsg"@), Seq::empty()));
            assert(Some(m@) == answer_error(*resp, action@));
        }
        Err(m)
    } else {
        Ok(())
    }
}

/// The first text that is there and not blank.
pub open spec fn first_filled(items: Seq<Option<Seq<char>>>) -> Option<Seq<char>>
    decreases items.len(),
{
    if items.len() == 0 {
        None
    } else {
        match items[0] {
            Some(s) if text::trim(s).len() > 0 => Some(s),
            _ => first_filled(items.drop_first()),
        }
    }
}

pub open spec fn opt_texts(items: Seq<Option<String>>) -> Seq<Option<Seq<char>>> {
    Seq::new(items.len(), |i: int| text::opt_text(items[i]))
}

pub fn first_non_empty(items: &Vec<Option<String>>) -> (r: Option<String>)
    ensures
        text::opt_text(r) == first_filled(opt_texts(items@)),
{
    let ghost all = opt_texts(items@);
    let mut i: usize = 0;
    proof {
        assert(all.skip(0) =~= all);
    }
    while i < items.len()
        invariant
            i <= items@.len(),
            all == opt_texts(items@),
            first_filled(all) == first_filled(all.skip(i as int)),
        decreases items.len() - i,
    {
        proof {
            assert(all.skip(i as int).drop_first() =~= all.skip(i + 1));
            assert(all.skip(i as int)[0] == text::opt_text(items@[i as int]));
        }
        if let Some(s) = &items[i] {
            if !blank(s.as_str()) {
                return Some(owned(s.as_str()));
            }
        }
        i = i + 1;
    }
    None
}

/// The text cut to a length for a log line.
pub fn truncate_for_log(input: &str, max_chars: usize) -> (r: String)
    ensures
        r@ == text::clipped(input@, max_chars as int),
{
    clip(input, max_chars)
}

/// The text on one line, cut to a length for a log line.
pub fn summarize_text_for_log(input: &str, max_chars: usize) -> (r: String)
    ensures
        r@ == text::clipped(text::replace(input@, "\n"@, "\\n"@), max_chars as int),
{
    proof {
        reveal_strlit("\n");
    }
    let flat = replaced(input, "\n", "\\n");
    clip(flat.as_str(), max_chars)
}

// ---------------------------------------------------------------------------
// Laws
// ---------------------------------------------------------------------------

/// A line that names a file of the machine does so whatever white space stands before it.
pub proof fn lemma_path_lines(a: Seq<char>, rest: Seq<char>)
    requires
        forall|i: int| 0 <= i < a.len() ==> text::is_whitespace(#[trigger] a[i]),
    ensures
        path_line(a + ("- output_path:"@ + rest)),
        path_line(a + ("- snapshot_path:"@ + rest)),
        path_line(a + ("- markdown_path:"@ + rest)),
{
    reveal_strlit("- output_path:");
    reveal_strlit("- snapshot_path:");
    reveal_strlit("- markdown_path:");
    assert(!text::is_whitespace('-'));
    let x = "- output_path:"@ + rest;
    let y = "- snapshot_path:"@ + rest;
    let z = "- markdown_path:"@ + rest;
    text::lemma_drop_leading_exact(a, x, CharClass::Space);
    text::lemma_drop_leading_exact(a, y, CharClass::Space);
    text::lemma_drop_leading_exact(a, z, CharClass::Space);
    assert(x.subrange(0, "- output_path:"@.len() as int) =~= "- output_path:"@);
    assert(y.subrange(0, "- snapshot_path:"@.len() as int) =~= "- snapshot_path:"@);
    assert(z.subrange(0, "- markdown_path:"@.len() as int) =~= "- markdown_path:"@);
}

/// The lines of a report are shown in their order: a line that names a file goes, and every
/// other line stays in its place.
pub proof fn lemma_report_lines_stay(
    content: Seq<char>,
    a: Seq<Seq<char>>,
    line: Seq<char>,
    b: Seq<Seq<char>>,
)
    requires
        text::lines(content) == a + seq![line] + b,
    ensures
        path_line(line) ==> sanitized_report(content) == text::join(
            a.filter(not_path_line()) + b.filter(not_path_line()),
            "\n"@,
        ),
        !path_line(line) ==> sanitized_report(content) == text::join(
            a.filter(not_path_line()) + seq![line] + b.filter(not_path_line()),
            "\n"@,
        ),
        (forall|i: int| 0 <= i < a.len() ==> !path_line(#[trigger] a[i])) ==> a.filter(
            not_path_line(),
        ) == a,
        (forall|i: int| 0 <= i < b.len() ==> !path_line(#[trigger] b[i])) ==> b.filter(
            not_path_line(),
        ) == b,
{
    let p = not_path_line();
    let x = a.filter(p);
    let y = b.filter(p);
    Seq::filter_distributes_over_add(a + seq![line], b, p);
    Seq::filter_distributes_over_add(a, seq![line], p);
    let here: Seq<Seq<char>> = if path_line(line) {
        Seq::empty()
    } else {
        seq![line]
    };
    assert(seq![line].filter(p) == here) by {
        reveal(Seq::filter);
        assert(seq![line].drop_last() =~= Seq::<Seq<char>>::empty());
        assert(seq![line].drop_last().filter(p) =~= Seq::<Seq<char>>::empty());
        assert(seq![line].filter(p) =~= here);
    }
    assert(sanitized_report(content) == text::join(x + here + y, "\n"@));
    assert(x + Seq::<Seq<char>>::empty() + y =~= x + y);
    if forall|i: int| 0 <= i < a.len() ==> !path_line(#[trigger] a[i]) {
        lemma_all_kept(a);
    }
    if forall|i: int| 0 <= i < b.len() ==> !path_line(#[trigger] b[i]) {
        lemma_all_kept(b);
    }
}

proof fn lemma_all_kept(a: Seq<Seq<char>>)
    requires
        forall|i: int| 0 <= i < a.len() ==> !path_line(#[trigger] a[i]),
    ensures
        a.filter(not_path_line()) == a,
    decreases a.len(),
{
    reveal(Seq::filter);
    if a.len() > 0 {
        lemma_all_kept(a.drop_last());
        assert(!path_line(a[a.len() - 1]));
        assert(a.filter(not_path_line()) =~= a);
    } else {
        assert(a.filter(not_path_line()) =~= a);
    }
}

/// The first text that is there and not blank is taken as it is.
pub proof fn lemma_first_filled(items: Seq<Option<Seq<char>>>, k: int)
    requires
        0 <= k < items.len(),
        items[k] is Some,
        !text::is_blank(items[k]->0),
        forall|i: int|
            0 <= i < k ==> ((#[trigger] items[i]) is None || text::is_blank(items[i]->0)),
    ensures
        first_filled(items) == items[k],
    decreases items.len(),
{
    if k > 0 {
        let rest = items.drop_first();
        assert(items[0] is None || text::is_blank(items[0]->0));
        assert forall|i: int| 0 <= i < k - 1 implies ((#[trigger] rest[i]) is None
            || text::is_blank(rest[i]->0)) by {
            assert(rest[i] == items[i + 1]);
        }
        lemma_first_filled(rest, k - 1);
    }
}

/// An answer reports success just where neither of its codes is other than zero; a failure
/// is told with the action and both codes.
pub proof fn lemma_answer_codes(resp: JsonValue, action: Seq<char>)
    ensures
        ({
            let ret = json::int_field(resp, "ret"@);
            let code = json::int_field(resp, "errcode"@);
            &&& (answer_error(resp, action) is None) == ((ret is None || ret == Some(0int)) && (
            code is None || code == Some(0int)))
            &&& answer_error(resp, action) matches Some(m) ==> {
                &&& text::starts_with(m, action)
                &&& ret is Some ==> text::contains(m, text::signed_decimal(ret->0))
                &&& code is Some ==> text::contains(m, text::signed_decimal(code->0))
                &&& json::text_field(resp, "errmsg"@) matches Some(e) ==> text::ends_with(m, e)
            }
        }),
{
    let ret = match json::int_field(resp, "ret"@) {
        Some(n) => n,
        None => 0,
    };
    let code = match json::int_field(resp, "errcode"@) {
        Some(n) => n,
        None => 0,
    };
    let e = text::text_or(json::text_field(resp, "errmsg"@), Seq::empty());
    let x = text::signed_decimal(ret);
    let y = text::signed_decimal(code);
    let m = action + " 失败: ret="@ + x + " errcode="@ + y + " errmsg="@ + e;
    assert(m.subrange(0, action.len() as int) =~= action);
    text::lemma_holds(action + " 失败: ret="@, x, " errcode="@ + y + " errmsg="@ + e);
    assert(action + " 失败: ret="@ + x + (" errcode="@ + y + " errmsg="@ + e) =~= m);
    text::lemma_holds(action + " 失败: ret="@ + x + " errcode="@, y, " errmsg="@ + e);
    assert(action + " 失败: ret="@ + x + " errcode="@ + y + (" errmsg="@ + e) =~= m);
    let n = m.len() - e.len();
    assert(m.subrange(n, n + e.len()) =~= e);
}

/// A text that begins with the word for a tool asks for the agent.
pub proof fn lemma_agent_words(rest: Seq<char>, raw: Seq<char>, s: Seq<char>)
    requires
        text::trim(s) == raw,
    ensures
        raw == "读文件 "@ + rest ==> agent_command(s),
        raw == "创建文件 "@ + rest ==> agent_command(s),
        raw == "写文件 "@ + rest ==> agent_command(s),
        raw == "read "@ + rest ==> agent_command(s),
        raw == "create "@ + rest ==> agent_command(s),
        raw == "write "@ + rest ==> agent_command(s),
        raw == "帮我运行："@ + rest ==> agent_command(s),
        raw == "帮我运行:"@ + rest ==> agent_command(s),
        raw == "请帮我运行："@ + rest ==> agent_command(s),
        raw == "请帮我运行:"@ + rest ==> agent_command(s),
{
    lemma_begins("读文件 "@, rest);
    lemma_begins("创建文件 "@, rest);
    lemma_begins("写文件 "@, rest);
    lemma_begins("read "@, rest);
    lemma_begins("create "@, rest);
    lemma_begins("write "@, rest);
    lemma_begins("帮我运行："@, rest);
    lemma_begins("帮我运行:"@, rest);
    lemma_begins("请帮我运行："@, rest);
    lemma_begins("请帮我运行:"@, rest);
}

proof fn lemma_begins(p: Seq<char>, rest: Seq<char>)
    ensures
        text::starts_with(p + rest, p),
{
    assert((p + rest).subrange(0, p.len() as int) =~= p);
}

} // verus!
