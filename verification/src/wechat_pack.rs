//! WeChat mini-program packaging: the page stem of a chunk and the page
//! script (`Page({...})`) of a packed page.

use vstd::prelude::*;
use crate::deployment::{last_segment, last_segment_exec};
use crate::text::{from_chars, has_prefix, push_all, push_str, starts_with, to_chars, trim, trim_chars, trim_end_char, trim_end_char_exec};

verus! {

/// One packed page: its chunk, program unit, stem and written files.
#[derive(Debug, Clone)]
pub struct WechatPackFile {
    /// Deployment chunk id (`pages/home`).
    pub chunk_id: String,
    /// Program unit name.
    pub unit_name: String,
    /// Stem relative to the WeChat pack root (`pages/home/home`).
    pub stem: String,
    /// Written paths relative to the workspace root.
    pub files: Vec<String>,
}

/// `s` without leading `c`.
pub open spec fn trim_start_char(s: Seq<char>, c: char) -> Seq<char>
    decreases s.len(),
{
    if s.len() > 0 && s[0] == c {
        trim_start_char(s.drop_first(), c)
    } else {
        s
    }
}

fn trim_start_char_exec(s: &[char], c: char) -> (r: Vec<char>)
    ensures
        r@ == trim_start_char(s@, c),
{
    let mut a: usize = 0;
    proof {
        assert(s@.skip(0) =~= s@);
    }
    while a < s.len() && s[a] == c
        invariant
            a <= s.len(),
            trim_start_char(s@, c) == trim_start_char(s@.skip(a as int), c),
        decreases s.len() - a,
    {
        proof {
            assert(s@.skip(a as int).drop_first() =~= s@.skip(a + 1));
        }
        a = a + 1;
    }
    let mut r: Vec<char> = Vec::new();
    let mut i = a;
    while i < s.len()
        invariant
            a <= i <= s.len(),
            r@ == s@.subrange(a as int, i as int),
        decreases s.len() - i,
    {
        r.push(s[i]);
        proof {
            assert(s@.subrange(a as int, i + 1) =~= s@.subrange(a as int, i as int).push(s@[i as int]));
        }
        i = i + 1;
    }
    proof {
        assert(r@ =~= s@.skip(a as int));
    }
    r
}

/// The page stem of a chunk id: the id trimmed of whitespace and of `/` at
/// both ends; a chunk under `pages/` gets its last segment appended
/// (`pages/home` -> `pages/home/home`), any other becomes
/// `pages/<last>/<last>`.
pub open spec fn page_stem(chunk_id: Seq<char>) -> Seq<char> {
    let chunk = trim_end_char(trim_start_char(trim(chunk_id), '/'), '/');
    let name = last_segment(chunk);
    if has_prefix(chunk, seq!['p', 'a', 'g', 'e', 's', '/']) {
        chunk + seq!['/'] + name
    } else {
        seq!['p', 'a', 'g', 'e', 's', '/'] + name + seq!['/'] + name
    }
}

/// The page stem of a chunk id under the WeChat pack root.
pub fn wechat_page_stem(chunk_id: &str) -> (r: String)
    ensures
        r@ == page_stem(chunk_id@),
{
    let raw = to_chars(chunk_id);
    let t = trim_chars(raw.as_slice());
    let a = trim_start_char_exec(t.as_slice(), '/');
    let chunk = trim_end_char_exec(a.as_slice(), '/');
    let name = last_segment_exec(chunk.as_slice());
    let pages: Vec<char> = vec!['p', 'a', 'g', 'e', 's', '/'];
    proof {
        assert(pages@ =~= seq!['p', 'a', 'g', 'e', 's', '/']);
    }
    let mut out: Vec<char> = Vec::new();
    if starts_with(chunk.as_slice(), pages.as_slice()) {
        push_all(&mut out, chunk.as_slice());
        out.push('/');
        push_all(&mut out, name.as_slice());
    } else {
        push_all(&mut out, pages.as_slice());
        push_all(&mut out, name.as_slice());
        out.push('/');
        push_all(&mut out, name.as_slice());
    }
    proof {
        assert(out@ =~= page_stem(chunk_id@));
    }
    from_chars(out.as_slice())
}

/// The decimal digit `d`.
pub open spec fn digit_char(d: int) -> char {
    seq!['0', '1', '2', '3', '4', '5', '6', '7', '8', '9'][d]
}

/// The decimal form of `n` (`u32::to_string`).
pub open spec fn decimal(n: nat) -> Seq<char>
    decreases n,
{
    if n < 10 {
        seq![digit_char(n as int)]
    } else {
        decimal(n / 10).push(digit_char((n % 10) as int))
    }
}

fn digit_exec(d: u64) -> (c: char)
    requires
        d < 10,
    ensures
        c == digit_char(d as int),
{
    let digits: Vec<char> = vec!['0', '1', '2', '3', '4', '5', '6', '7', '8', '9'];
    proof {
        assert(digits@ =~= seq!['0', '1', '2', '3', '4', '5', '6', '7', '8', '9']);
    }
    digits[d as usize]
}

pub(crate) fn decimal_exec(n: u64) -> (r: Vec<char>)
    ensures
        r@ == decimal(n as nat),
    decreases n,
{
    if n < 10 {
        vec![digit_exec(n)]
    } else {
        let mut v = decimal_exec(n / 10);
        v.push(digit_exec(n % 10));
        v
    }
}

/// The line of binding field `i` in `data.b`: `name: init`, a comma unless
/// it is the last.
pub open spec fn field_line(fields: Seq<(Seq<char>, Seq<char>)>, i: int) -> Seq<char> {
    "      "@ + fields[i].0 + ": "@ + fields[i].1 + (if i + 1 != fields.len() {
        seq![',']
    } else {
        Seq::empty()
    }) + seq!['\n']
}

/// The lines of the first `n` binding fields.
pub open spec fn field_lines(fields: Seq<(Seq<char>, Seq<char>)>, n: int) -> Seq<char>
    decreases n,
{
    if n <= 0 {
        Seq::empty()
    } else {
        field_lines(fields, n - 1) + field_line(fields, n - 1)
    }
}

/// The `Page({...})` source of a page: binding fields under `data.b`, a tab
/// `onShow` that selects `tab_selected`, and the share menu with its title
/// (already JSON text).
pub open spec fn page_js(title: Seq<char>, fields: Seq<(Seq<char>, Seq<char>)>, tab: Option<u32>) -> Seq<char> {
    "Page({\n"@ + (if fields.len() > 0 {
        "  data: {\n"@ + "    b: {\n"@ + field_lines(fields, fields.len() as int) + "    }\n"@ + "  },\n"@
    } else {
        Seq::empty()
    }) + match tab {
        Some(index) => "  onShow() {\n"@ + "    const bar = typeof this.getTabBar === 'function' ? this.getTabBar() : null;\n"@
            + "    if (bar) {\n"@ + "      bar.setData({ selected: "@ + decimal(index as nat) + " });\n"@ + "    }\n"@ + "  },\n"@,
        None => Seq::empty(),
    } + "  onShareAppMessage() { return { title: "@ + title + " }; }\n});\n"@
}

/// The fields as plain values.
pub open spec fn fields_view(f: Seq<(String, String)>) -> Seq<(Seq<char>, Seq<char>)> {
    f.map_values(|p: (String, String)| (p.0@, p.1@))
}

/// Chrome `Page({...})` source of a packed page: optional binding fields
/// under `data.b`, a tab `onShow` selecting `tab_selected`, and the share
/// menu titled `share_title_json`.
pub fn format_page_js(share_title_json: &str, binding_fields: &[(String, String)], tab_selected: Option<u32>) -> (r: String)
    ensures
        r@ == page_js(share_title_json@, fields_view(binding_fields@), tab_selected),
{
    let ghost fv = fields_view(binding_fields@);
    let mut body = to_chars("Page({\n");
    let ghost head = body@;
    if binding_fields.len() > 0 {
        push_str(&mut body, "  data: {\n");
        push_str(&mut body, "    b: {\n");
        let ghost before_lines = body@;
        let mut i: usize = 0;
        while i < binding_fields.len()
            invariant
                i <= binding_fields.len(),
                fv == fields_view(binding_fields@),
                body@ == before_lines + field_lines(fv, i as int),
            decreases binding_fields.len() - i,
        {
            let ghost pre = body@;
            push_str(&mut body, "      ");
            push_str(&mut body, binding_fields[i].0.as_str());
            push_str(&mut body, ": ");
            push_str(&mut body, binding_fields[i].1.as_str());
            if i + 1 != binding_fields.len() {
                body.push(',');
            }
            body.push('\n');
            proof {
                assert(fv[i as int] == (binding_fields@[i as int].0@, binding_fields@[i as int].1@));
                assert(body@ =~= pre + field_line(fv, i as int));
                assert(body@ =~= before_lines + field_lines(fv, i + 1));
            }
            i = i + 1;
        }
        push_str(&mut body, "    }\n");
        push_str(&mut body, "  },\n");
    }
    let ghost after_data = body@;
    proof {
        assert(after_data =~= head + (if fv.len() > 0 {
            "  data: {\n"@ + "    b: {\n"@ + field_lines(fv, fv.len() as int) + "    }\n"@ + "  },\n"@
        } else {
            Seq::empty()
        }));
    }
    match tab_selected {
        Some(index) => {
            push_str(&mut body, "  onShow() {\n");
            push_str(&mut body, "    const bar = typeof this.getTabBar === 'function' ? this.getTabBar() : null;\n");
            push_str(&mut body, "    if (bar) {\n");
            push_str(&mut body, "      bar.setData({ selected: ");
            let d = decimal_exec(index as u64);
            push_all(&mut body, d.as_slice());
            push_str(&mut body, " });\n");
            push_str(&mut body, "    }\n");
            push_str(&mut body, "  },\n");
        },
        None => {},
    }
    let ghost after_tab = body@;
    push_str(&mut body, "  onShareAppMessage() { return { title: ");
    push_str(&mut body, share_title_json);
    push_str(&mut body, " }; }\n});\n");
    proof {
        assert(body@ =~= page_js(share_title_json@, fv, tab_selected));
    }
    from_chars(body.as_slice())
}

} // verus!
