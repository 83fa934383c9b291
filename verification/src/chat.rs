//! Chat-format primitives: role-tagged messages, a bounded conversation
//! context, and the template markers the transcript format uses.

use vstd::prelude::*;
use vstd::string::{StrSliceExecFns, StringExecFns};

verus! {

/// The marker opening one transcript message.
pub open spec fn im_start() -> Seq<char> {
    "<|im_start|>"@
}

/// The marker closing one transcript message.
pub open spec fn im_end() -> Seq<char> {
    "<|im_end|>"@
}

/// ASCII whitespace, as trimmed from roles and contents.
pub open spec fn is_ws(c: char) -> bool {
    c == ' ' || c == '\t' || c == '\n' || c == '\r'
}

/// A text with ASCII whitespace stripped from both ends.
pub open spec fn trim_ws(s: Seq<char>) -> Seq<char>
    decreases s.len(),
{
    if s.len() == 0 {
        s
    } else if is_ws(s.first()) {
        trim_ws(s.drop_first())
    } else if is_ws(s.last()) {
        trim_ws(s.drop_last())
    } else {
        s
    }
}

/// A text with ASCII whitespace stripped from its end only.
pub open spec fn trim_ws_end(s: Seq<char>) -> Seq<char>
    decreases s.len(),
{
    if s.len() > 0 && is_ws(s.last()) {
        trim_ws_end(s.drop_last())
    } else {
        s
    }
}

/// The first position of `c` in `s`.
pub open spec fn find_char(s: Seq<char>, c: char) -> Option<int>
    decreases s.len(),
{
    if s.len() == 0 {
        Option::None
    } else if s.first() == c {
        Option::Some(0)
    } else {
        match find_char(s.drop_first(), c) {
            Option::None => Option::None,
            Option::Some(i) => Option::Some(i + 1),
        }
    }
}

/// Whether `p` is a prefix of `s`.
pub open spec fn starts_with(s: Seq<char>, p: Seq<char>) -> bool {
    s.len() >= p.len() && s.take(p.len() as int) == p
}

/// Whether `p` is a suffix of `s`.
pub open spec fn ends_with(s: Seq<char>, p: Seq<char>) -> bool {
    s.len() >= p.len() && s.skip((s.len() - p.len()) as int) == p
}

/// Strips every leading occurrence of `p` off `s`.
pub open spec fn strip_prefixes(s: Seq<char>, p: Seq<char>) -> Seq<char>
    decreases s.len(),
{
    if p.len() > 0 && starts_with(s, p) {
        strip_prefixes(s.skip(p.len() as int), p)
    } else {
        s
    }
}

proof fn lemma_trim_ws_range(s: Seq<char>, lo: int, hi: int)
    requires
        0 <= lo <= hi <= s.len(),
        forall|i: int| 0 <= i < lo ==> is_ws(#[trigger] s[i]),
        forall|i: int| hi <= i < s.len() ==> is_ws(#[trigger] s[i]),
        lo < hi ==> !is_ws(s[lo]) && !is_ws(s[hi - 1]),
    ensures
        trim_ws(s) == s.subrange(lo, hi),
    decreases s.len(),
{
    if s.len() == 0 {
        assert(trim_ws(s) =~= s.subrange(lo, hi));
    } else if lo > 0 {
        lemma_trim_ws_range(s.drop_first(), lo - 1, hi - 1);
        assert(s.drop_first().subrange(lo - 1, hi - 1) =~= s.subrange(lo, hi));
    } else if lo == hi {
        assert(is_ws(s.first()));
        lemma_trim_ws_range(s.drop_first(), 0, 0);
        assert(s.drop_first().subrange(0, 0) =~= s.subrange(lo, hi));
    } else if hi < s.len() {
        assert(!is_ws(s.first()));
        assert(is_ws(s.last()));
        lemma_trim_ws_range(s.drop_last(), lo, hi);
        assert(s.drop_last().subrange(lo, hi) =~= s.subrange(lo, hi));
    } else {
        assert(trim_ws(s) == s);
        assert(s.subrange(lo, hi) =~= s);
    }
}

proof fn lemma_trim_ws_end_range(s: Seq<char>, hi: int)
    requires
        0 <= hi <= s.len(),
        forall|i: int| hi <= i < s.len() ==> is_ws(#[trigger] s[i]),
        hi > 0 ==> !is_ws(s[hi - 1]),
    ensures
        trim_ws_end(s) == s.take(hi),
    decreases s.len(),
{
    if hi < s.len() {
        assert(is_ws(s.last()));
        lemma_trim_ws_end_range(s.drop_last(), hi);
        assert(s.drop_last().take(hi) =~= s.take(hi));
    } else {
        assert(trim_ws_end(s) == s);
        assert(s.take(hi) =~= s);
    }
}

fn ws_char(c: char) -> (b: bool)
    ensures
        b == is_ws(c),
{
    c == ' ' || c == '\t' || c == '\n' || c == '\r'
}

/// Strips ASCII whitespace from both ends.
pub fn trim_ws_str(s: &str) -> (r: String)
    ensures
        r@ == trim_ws(s@),
{
    let len = s.unicode_len();
    let mut lo: usize = 0;
    let mut hi: usize = len;
    while lo < len && ws_char(s.get_char(lo))
        invariant
            lo <= len,
            len == s@.len(),
            forall|i: int| 0 <= i < lo ==> is_ws(#[trigger] s@[i]),
        decreases len - lo,
    {
        lo += 1;
    }
    while hi > lo && ws_char(s.get_char(hi - 1))
        invariant
            lo <= hi <= len,
            len == s@.len(),
            forall|i: int| hi <= i < len ==> is_ws(#[trigger] s@[i]),
        decreases hi,
    {
        hi -= 1;
    }
    proof {
        lemma_trim_ws_range(s@, lo as int, hi as int);
    }
    s.substring_char(lo, hi).to_owned()
}

/// Strips ASCII whitespace from the end only.
pub fn trim_ws_end_str(s: &str) -> (r: String)
    ensures
        r@ == trim_ws_end(s@),
{
    let len = s.unicode_len();
    let mut hi: usize = len;
    while hi > 0 && ws_char(s.get_char(hi - 1))
        invariant
            hi <= len,
            len == s@.len(),
            forall|i: int| hi <= i < len ==> is_ws(#[trigger] s@[i]),
        decreases hi,
    {
        hi -= 1;
    }
    proof {
        lemma_trim_ws_end_range(s@, hi as int);
    }
    s.substring_char(0, hi).to_owned()
}

proof fn lemma_find_char_at(s: Seq<char>, c: char, i: int)
    requires
        0 <= i <= s.len(),
        forall|j: int| 0 <= j < i ==> s[j] != c,
        i < s.len() ==> s[i] == c,
    ensures
        i < s.len() ==> find_char(s, c) == Option::Some(i),
        i == s.len() ==> find_char(s, c) is None,
    decreases s.len(),
{
    if s.len() > 0 {
        if i == 0 {
        } else {
            assert(s.first() != c);
            lemma_find_char_at(s.drop_first(), c, i - 1);
        }
    }
}

/// The position of the first `'\n'` in `s`, if any.
fn find_newline_str(s: &str) -> (r: Option<usize>)
    ensures
        match r {
            Option::Some(i) => i < s@.len() && find_char(s@, '\n') == Option::Some(i as int),
            Option::None => find_char(s@, '\n') is None,
        },
{
    let len = s.unicode_len();
    let mut i: usize = 0;
    while i < len
        invariant
            i <= len,
            len == s@.len(),
            forall|j: int| 0 <= j < i ==> s@[j] != '\n',
        decreases len - i,
    {
        if s.get_char(i) == '\n' {
            proof {
                lemma_find_char_at(s@, '\n', i as int);
            }
            return Some(i);
        }
        i += 1;
    }
    proof {
        lemma_find_char_at(s@, '\n', len as int);
    }
    None
}

/// Whether `p` is a prefix of `s`.
fn has_prefix(s: &str, p: &str) -> (b: bool)
    ensures
        b == starts_with(s@, p@),
{
    let slen = s.unicode_len();
    let plen = p.unicode_len();
    if slen < plen {
        return false;
    }
    let mut j: usize = 0;
    while j < plen
        invariant
            j <= plen,
            plen <= slen,
            slen == s@.len(),
            plen == p@.len(),
            forall|t: int| 0 <= t < j ==> s@[t] == p@[t],
        decreases plen - j,
    {
        if s.get_char(j) != p.get_char(j) {
            proof {
                assert(s@.take(p@.len() as int)[j as int] != p@[j as int]);
            }
            return false;
        }
        j += 1;
    }
    proof {
        assert(s@.take(p@.len() as int) =~= p@);
    }
    true
}

/// Whether `p` is a suffix of `s`.
fn has_suffix(s: &str, p: &str) -> (b: bool)
    ensures
        b == ends_with(s@, p@),
{
    let slen = s.unicode_len();
    let plen = p.unicode_len();
    if slen < plen {
        return false;
    }
    let off = slen - plen;
    let mut j: usize = 0;
    while j < plen
        invariant
            j <= plen,
            off == slen - plen,
            plen <= slen,
            slen == s@.len(),
            plen == p@.len(),
            forall|t: int| 0 <= t < j ==> s@[off + t] == p@[t],
        decreases plen - j,
    {
        if s.get_char(off + j) != p.get_char(j) {
            proof {
                assert(s@.skip(off as int)[j as int] != p@[j as int]);
            }
            return false;
        }
        j += 1;
    }
    proof {
        assert(s@.skip(off as int) =~= p@);
    }
    true
}

/// Strips every leading occurrence of `p` off `s`.
fn strip_prefixes_str(s: &str, p: &str) -> (r: String)
    requires
        p@.len() > 0,
    ensures
        r@ == strip_prefixes(s@, p@),
{
    let mut cur = s.to_owned();
    while has_prefix(cur.as_str(), p)
        invariant
            p@.len() > 0,
            strip_prefixes(cur@, p@) == strip_prefixes(s@, p@),
        decreases cur@.len(),
    {
        let plen = p.unicode_len();
        let next = cur.as_str().substring_char(plen, cur.as_str().unicode_len()).to_owned();
        proof {
            assert(next@ =~= cur@.skip(p@.len() as int));
        }
        cur = next;
    }
    cur
}

/// One transcript message: a role and its content.
#[derive(Debug, PartialEq, Eq)]
pub struct Message {
    pub role: String,
    pub content: String,
}

/// Mathematical model of a [`Message`].
pub ghost struct MessageModel {
    pub role: Seq<char>,
    pub content: Seq<char>,
}

impl View for Message {
    type V = MessageModel;

    open spec fn view(&self) -> MessageModel {
        MessageModel { role: self.role@, content: self.content@ }
    }
}

impl DeepView for Message {
    type V = MessageModel;

    open spec fn deep_view(&self) -> MessageModel {
        self.view()
    }
}

/// The message a raw model transcript line parses to: the part before the
/// first newline names the role (its opening markers and surrounding
/// whitespace stripped), the rest is the content (trimmed, with one
/// closing marker stripped off the end). Without a newline the whole text
/// is content and the role is `unknown`.
pub open spec fn parsed_message(s: Seq<char>) -> MessageModel {
    match find_char(s, '\n') {
        Option::Some(i) => {
            let raw_role = trim_ws(s.take(i));
            let role = if starts_with(raw_role, im_start()) {
                trim_ws(strip_prefixes(raw_role, im_start()))
            } else {
                raw_role
            };
            MessageModel { role, content: parsed_content(s.skip(i + 1)) }
        },
        Option::None => MessageModel { role: "unknown"@, content: parsed_content(s) },
    }
}

/// The content part of a parsed transcript line.
pub open spec fn parsed_content(s: Seq<char>) -> Seq<char> {
    let raw = trim_ws(s);
    if ends_with(raw, im_end()) {
        trim_ws_end(raw.take((raw.len() - im_end().len()) as int))
    } else {
        raw
    }
}

fn parse_content(s: &str) -> (r: String)
    ensures
        r@ == parsed_content(s@),
{
    let raw = trim_ws_str(s);
    if has_suffix(raw.as_str(), "<|im_end|>") {
        proof {
            reveal_strlit("<|im_end|>");
        }
        let rawlen = raw.as_str().unicode_len();
        let cut = raw.as_str().substring_char(0, rawlen - 10);
        let r = trim_ws_end_str(cut);
        proof {
            assert(cut@ =~= raw@.take((raw@.len() - im_end().len()) as int));
        }
        r
    } else {
        proof {
            reveal_strlit("<|im_end|>");
        }
        raw
    }
}

impl Message {
    pub fn new(role: String, content: String) -> (r: Self)
        ensures
            r@.role == role@,
            r@.content == content@,
    {
        Message { role, content }
    }

    /// Parses one raw model transcript line into a message.
    pub fn from_string(s: String) -> (r: Self)
        ensures
            r@ == parsed_message(s@),
    {
        let st = s.as_str();
        match find_newline_str(st) {
            Some(i) => {
                let len = st.unicode_len();
                let part0 = st.substring_char(0, i);
                let part1 = st.substring_char(i + 1, len);
                let raw_role = trim_ws_str(part0);
                let role = if has_prefix(raw_role.as_str(), "<|im_start|>") {
                    proof {
                        reveal_strlit("<|im_start|>");
                    }
                    let stripped = strip_prefixes_str(raw_role.as_str(), "<|im_start|>");
                    trim_ws_str(stripped.as_str())
                } else {
                    proof {
                        reveal_strlit("<|im_start|>");
                    }
                    raw_role
                };
                let content = parse_content(part1);
                Message { role, content }
            },
            None => {
                let content = parse_content(st);
                let role = "unknown".to_owned();
                Message { role, content }
            },
        }
    }
}

/// The transcript text of one message: opening marker, role, newline,
/// content, newline, closing marker, newline.
pub open spec fn compiled_message(m: MessageModel) -> Seq<char> {
    im_start() + m.role + "\n"@ + m.content + "\n"@ + im_end() + "\n"@
}

/// The transcript of a whole message list, in order.
pub open spec fn compiled_messages(ms: Seq<MessageModel>) -> Seq<char>
    decreases ms.len(),
{
    if ms.len() == 0 {
        Seq::empty()
    } else {
        compiled_message(ms.first()) + compiled_messages(ms.drop_first())
    }
}

/// A bounded conversation context.
pub struct Context {
    size: usize,
    pub messages: Vec<Message>,
}

/// Mathematical model of a [`Context`].
pub ghost struct ContextModel {
    pub size: usize,
    pub messages: Seq<MessageModel>,
}

impl View for Context {
    type V = ContextModel;

    closed spec fn view(&self) -> ContextModel {
        ContextModel { size: self.size, messages: self.messages.deep_view() }
    }
}

impl Context {
    /// An empty context with the given size bound.
    pub fn new(size: usize) -> (r: Self)
        ensures
            r@.size == size,
            r@.messages == Seq::<MessageModel>::empty(),
    {
        let r = Context { size, messages: Vec::new() };
        proof {
            assert(r@.messages =~= Seq::<MessageModel>::empty());
        }
        r
    }

    /// A context seeded with a message list; its size bound is twice the
    /// list's length.
    pub fn from_messages(messages: Vec<Message>) -> (r: Self)
        requires
            messages@.len() * 2 <= usize::MAX,
        ensures
            r@.size == messages@.len() * 2,
            r@.messages == messages.deep_view(),
    {
        let size = messages.len() * 2;
        Context { size, messages }
    }

    /// Adds a message. While the history is within its bound the message
    /// goes to the back; once `size` is exceeded, the middle of the
    /// history is drained — the first two messages are pinned — and the
    /// new message is discarded with the drained ones.
    pub fn add_message(&mut self, message: Message)
        requires
            old(self)@.messages.len() >= 1,
            old(self)@.messages.len() - 1 > old(self)@.size ==> 2 <= old(self)@.size <= old(
                self,
            )@.messages.len(),
        ensures
            final(self)@.size == old(self)@.size,
            final(self)@.messages == if old(self)@.messages.len() - 1 > old(self)@.size {
                old(self)@.messages.take(2) + old(self)@.messages.skip(old(self)@.size as int)
            } else {
                old(self)@.messages.push(message@)
            },
    {
        if self.messages.len() - 1 > self.size {
            let ghost before = self.messages.deep_view();
            let mut kept: Vec<Message> = Vec::new();
            let mut i: usize = 0;
            while i < self.messages.len()
                invariant
                    i <= self.messages@.len(),
                    self.messages.deep_view() == before,
                    2 <= self@.size <= before.len(),
                    self@.size == old(self)@.size,
                    kept.deep_view() =~= (before.take(2) + before.skip(self@.size as int)).take(
                        if i <= 2 {
                            i as int
                        } else if i <= self@.size {
                            2
                        } else {
                            2 + (i - self@.size)
                        },
                    ),
                decreases self.messages@.len() - i,
            {
                if i < 2 || i >= self.size {
                    let ghost prev = kept.deep_view();
                    let ghost m_view = self.messages.deep_view()[i as int];
                    let m = Message {
                        role: self.messages[i].role.clone(),
                        content: self.messages[i].content.clone(),
                    };
                    kept.push(m);
                    proof {
                        assert(kept.deep_view() =~= prev.push(m_view));
                    }
                }
                i += 1;
            }
            proof {
                assert(kept.deep_view() =~= before.take(2) + before.skip(self@.size as int));
            }
            self.messages = kept;
        } else {
            let ghost prev = self.messages.deep_view();
            let ghost m_view = message@;
            self.messages.push(message);
            proof {
                assert(self.messages.deep_view() =~= prev.push(m_view));
            }
        }
    }

    /// Compiles the whole context into one transcript prompt.
    pub fn compile(&self) -> (r: String)
        ensures
            r@ == compiled_messages(self@.messages),
    {
        let mut r = String::new();
        let ghost d = self@.messages;
        proof {
            assert(d.skip(0) =~= d);
            assert(r@ + compiled_messages(d) =~= compiled_messages(d));
        }
        let mut i: usize = 0;
        while i < self.messages.len()
            invariant
                i <= self.messages@.len(),
                d == self@.messages,
                d.len() == self.messages@.len(),
                r@ + compiled_messages(d.skip(i as int)) =~= compiled_messages(d),
            decreases self.messages@.len() - i,
        {
            let ghost before = r@;
            let m = &self.messages[i];
            r.append("<|im_start|>");
            r.append(m.role.as_str());
            r.append("\n");
            r.append(m.content.as_str());
            r.append("\n");
            r.append("<|im_end|>");
            r.append("\n");
            proof {
                assert(d.skip(i as int).first() == d[i as int]);
                assert(d.skip(i as int).drop_first() =~= d.skip(i + 1));
                assert(compiled_messages(d.skip(i as int)) == compiled_message(d[i as int])
                    + compiled_messages(d.skip(i + 1)));
                assert(r@ =~= before + compiled_message(d[i as int]));
                assert(r@ + compiled_messages(d.skip(i + 1)) =~= before + compiled_messages(
                    d.skip(i as int),
                ));
            }
            i += 1;
        }
        proof {
            assert(d.skip(d.len() as int) =~= Seq::<MessageModel>::empty());
            assert(r@ =~= compiled_messages(d));
        }
        r
    }
}

} // verus!
