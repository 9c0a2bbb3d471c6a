//! The command line that starts and stops the exchange feeds.
use vstd::prelude::*;

verus! {

/// The trading pairs that the feeds may be started for.
pub open spec fn allowed_symbol(s: Seq<char>) -> bool {
    s == "ethbtc"@ || s == "ethusdt"@ || s == "btcusdt"@
}

/// Whether the feeds may be started for `s`.
pub fn is_allowed_symbol(s: &str) -> (r: bool)
    ensures
        r == allowed_symbol(s@),
{
    let t = String::from_str(s);
    t == String::from_str("ethbtc") || t == String::from_str("ethusdt") || t == String::from_str(
        "btcusdt",
    )
}

/// The characters with the Unicode property White_Space, which
/// `char::is_whitespace` and `str::split_whitespace` go by.
pub open spec fn is_white_space(c: char) -> bool {
    let u = c as u32;
    ||| 0x09 <= u <= 0x0d
    ||| u == 0x20
    ||| u == 0x85
    ||| u == 0xa0
    ||| u == 0x1680
    ||| 0x2000 <= u <= 0x200a
    ||| u == 0x2028
    ||| u == 0x2029
    ||| u == 0x202f
    ||| u == 0x205f
    ||| u == 0x3000
}

/// Reading a line from left to right: the words completed so far, and the
/// word under way.
pub struct WordScan {
    pub words: Seq<Seq<char>>,
    pub current: Seq<char>,
}

pub open spec fn scan_words(s: Seq<char>) -> WordScan
    decreases s.len(),
{
    if s.len() == 0 {
        WordScan { words: Seq::empty(), current: Seq::empty() }
    } else {
        let prev = scan_words(s.drop_last());
        let c = s.last();
        if is_white_space(c) {
            WordScan {
                words: if prev.current.len() > 0 {
                    prev.words.push(prev.current)
                } else {
                    prev.words
                },
                current: Seq::empty(),
            }
        } else {
            WordScan { words: prev.words, current: prev.current.push(c) }
        }
    }
}

/// The words of `s`: its longest runs of characters that are not white
/// space, in order, as `str::split_whitespace` gives them.
pub open spec fn whitespace_words(s: Seq<char>) -> Seq<Seq<char>> {
    let sc = scan_words(s);
    if sc.current.len() > 0 {
        sc.words.push(sc.current)
    } else {
        sc.words
    }
}

fn is_white_space_exec(c: char) -> (r: bool)
    ensures
        r == is_white_space(c),
{
    let u: u32 = c as u32;
    (0x09 <= u && u <= 0x0d) || u == 0x20 || u == 0x85 || u == 0xa0 || u == 0x1680 || (0x2000 <= u
        && u <= 0x200a) || u == 0x2028 || u == 0x2029 || u == 0x202f || u == 0x205f || u == 0x3000
}

/// The words of `s`, split at white space.
pub fn split_words(s: &str) -> (r: Vec<String>)
    ensures
        r@.map_values(|w: String| w@) == whitespace_words(s@),
{
    let len: usize = s.unicode_len();
    let mut out: Vec<String> = Vec::new();
    let mut start: usize = 0;
    let mut i: usize = 0;
    assert(s@.take(0) =~= Seq::<char>::empty());
    assert(s@.subrange(0, 0) =~= Seq::<char>::empty());
    assert(out@.map_values(|w: String| w@) =~= Seq::<Seq<char>>::empty());
    while i < len
        invariant
            len == s@.len(),
            start <= i <= len,
            scan_words(s@.take(i as int)) == (WordScan {
                words: out@.map_values(|w: String| w@),
                current: s@.subrange(start as int, i as int),
            }),
        decreases len - i,
    {
        let c: char = s.get_char(i);
        assert(s@.take(i + 1).drop_last() =~= s@.take(i as int));
        assert(s@.take(i + 1).last() == c);
        if is_white_space_exec(c) {
            if start < i {
                let w = String::from_str(s.substring_char(start, i));
                let ghost before = out@;
                out.push(w);
                assert(out@.map_values(|w: String| w@) =~= before.map_values(|w: String| w@).push(
                    s@.subrange(start as int, i as int),
                ));
            }
            start = i + 1;
            assert(s@.subrange(start as int, i + 1) =~= Seq::<char>::empty());
        } else {
            assert(s@.subrange(start as int, i + 1) =~= s@.subrange(start as int, i as int).push(c));
        }
        i = i + 1;
    }
    assert(s@.take(len as int) =~= s@);
    if start < len {
        let w = String::from_str(s.substring_char(start, len));
        let ghost before = out@;
        out.push(w);
        assert(out@.map_values(|w: String| w@) =~= before.map_values(|w: String| w@).push(
            s@.subrange(start as int, len as int),
        ));
    }
    out
}

/// What the console does with a line.
#[derive(Debug)]
pub enum ConsoleAction {
    /// Nothing: the line is empty or says `continue`.
    Nothing,
    /// End the program.
    Quit,
    /// `start` while the feeds run: refused.
    AlreadyOnline,
    /// `start` without a symbol.
    MissingSymbol,
    /// `start` with a symbol that is not allowed.
    SymbolNotAllowed,
    /// Start the feeds for this symbol.
    Start(String),
    /// Stop the feeds.
    Stop,
    /// A command that the console does not know.
    Unimplemented,
}

/// The command word of a line: its first word, or `continue` where it has
/// none.
pub open spec fn command_word(words: Seq<Seq<char>>) -> Seq<char> {
    if words.len() == 0 {
        "continue"@
    } else {
        words[0]
    }
}

/// What the console does with the words of a line while the feeds are
/// `online` or not, and whether they are online afterwards.
pub open spec fn console_step(
    online: bool,
    words: Seq<Seq<char>>,
    action: ConsoleAction,
    online_after: bool,
) -> bool {
    let cmd = command_word(words);
    if cmd == "continue"@ {
        action is Nothing && online_after == online
    } else if cmd == "quit"@ {
        action is Quit && online_after == online
    } else if cmd == "start"@ {
        if online {
            action is AlreadyOnline && online_after
        } else if words.len() < 2 {
            action is MissingSymbol && !online_after
        } else if !allowed_symbol(words[1]) {
            action is SymbolNotAllowed && !online_after
        } else {
            (action matches ConsoleAction::Start(p) && p@ == words[1]) && online_after
        }
    } else if cmd == "stop"@ {
        action is Stop && !online_after
    } else {
        action is Unimplemented && online_after == online
    }
}

/// Whether the feeds run.
pub struct Console {
    pub online: bool,
}

impl Console {
    /// A console with the feeds stopped.
    pub fn new() -> (r: Console)
        ensures
            !r.online,
    {
        Console { online: false }
    }

    /// The prompt: the feeds' status and `>`.
    pub fn prompt(&self) -> (r: String)
        ensures
            r@ == (if self.online {
                "online>"@
            } else {
                "offline>"@
            }),
    {
        if self.online {
            String::from_str("online>")
        } else {
            String::from_str("offline>")
        }
    }

    /// Handles the words of one line.
    pub fn step_words(&mut self, words: &Vec<String>) -> (r: ConsoleAction)
        ensures
            console_step(old(self).online, words@.map_values(|w: String| w@), r, final(self).online),
    {
        let ghost ws = words@.map_values(|w: String| w@);
        let cmd: String = if words.len() == 0 {
            String::from_str("continue")
        } else {
            words[0].clone()
        };
        assert(cmd@ == command_word(ws));
        if cmd == String::from_str("continue") {
            ConsoleAction::Nothing
        } else if cmd == String::from_str("quit") {
            ConsoleAction::Quit
        } else if cmd == String::from_str("start") {
            if self.online {
                return ConsoleAction::AlreadyOnline;
            }
            if words.len() < 2 {
                return ConsoleAction::MissingSymbol;
            }
            assert(ws[1] == words@[1]@);
            if !is_allowed_symbol(words[1].as_str()) {
                return ConsoleAction::SymbolNotAllowed;
            }
            self.online = true;
            ConsoleAction::Start(words[1].clone())
        } else if cmd == String::from_str("stop") {
            self.online = false;
            ConsoleAction::Stop
        } else {
            ConsoleAction::Unimplemented
        }
    }

    /// Handles one line, split into words at white space.
    pub fn step(&mut self, line: &str) -> (r: ConsoleAction)
        ensures
            console_step(old(self).online, whitespace_words(line@), r, final(self).online),
    {
        let words = split_words(line);
        self.step_words(&words)
    }
}


// ---------------------------------------------------------------------------
// Laws of the command line

/// The characters of the Unicode property White_Space, one by one.
pub open spec fn white_space_list() -> Seq<char> {
    seq![
        '\u{9}', '\u{a}', '\u{b}', '\u{c}', '\u{d}', '\u{20}', '\u{85}', '\u{a0}', '\u{1680}',
        '\u{2000}', '\u{2001}', '\u{2002}', '\u{2003}', '\u{2004}', '\u{2005}', '\u{2006}',
        '\u{2007}', '\u{2008}', '\u{2009}', '\u{200a}', '\u{2028}', '\u{2029}', '\u{202f}',
        '\u{205f}', '\u{3000}',
    ]
}

/// A line is split exactly at the Unicode White_Space characters: tab, line
/// feed, vertical tab, form feed, carriage return, space, next line,
/// no-break space, ogham space mark, the spaces U+2000 to U+200A, line and
/// paragraph separators, narrow no-break space, medium mathematical space and
/// ideographic space.
pub proof fn law_white_space_is_unicode_white_space(c: char)
    ensures
        is_white_space(c) <==> white_space_list().contains(c),
{
    let l = white_space_list();
    let u = c as u32;
    if l.contains(c) {
        let i = choose|i: int| 0 <= i < l.len() && l[i] == c;
        assert(is_white_space(l[i]));
    }
    if is_white_space(c) {
        let i: int = if u == 0x9 { 0 } else if u == 0xa { 1 } else if u == 0xb { 2 } else if u == 0xc { 3 }
            else if u == 0xd { 4 } else if u == 0x20 { 5 } else if u == 0x85 { 6 } else if u == 0xa0 { 7 }
            else if u == 0x1680 { 8 } else if 0x2000 <= u <= 0x200a { 9 + (u - 0x2000) }
            else if u == 0x2028 { 20 } else if u == 0x2029 { 21 } else if u == 0x202f { 22 }
            else if u == 0x205f { 23 } else { 24 };
        assert(l[i] as u32 == u);
        assert(l[i] == c);
    }
}


proof fn lemma_scan_words_clean(s: Seq<char>)
    ensures
        forall|i: int|
            0 <= i < scan_words(s).words.len() ==> (#[trigger] scan_words(s).words[i]).len() > 0,
        forall|i: int, k: int|
            0 <= i < scan_words(s).words.len() && 0 <= k < scan_words(s).words[i].len()
                ==> !is_white_space(#[trigger] scan_words(s).words[i][k]),
        forall|k: int|
            0 <= k < scan_words(s).current.len() ==> !is_white_space(
                #[trigger] scan_words(s).current[k],
            ),
    decreases s.len(),
{
    if s.len() > 0 {
        lemma_scan_words_clean(s.drop_last());
        let prev = scan_words(s.drop_last());
        let c = s.last();
        if !is_white_space(c) {
            assert forall|k: int| 0 <= k < scan_words(s).current.len() implies !is_white_space(
                #[trigger] scan_words(s).current[k],
            ) by {
                if k < prev.current.len() {
                    assert(scan_words(s).current[k] == prev.current[k]);
                }
            }
        }
    }
}

/// Every word of a line is non-empty and holds no White_Space character.
pub proof fn law_words_hold_no_white_space(s: Seq<char>)
    ensures
        forall|i: int| 0 <= i < whitespace_words(s).len() ==> (#[trigger] whitespace_words(s)[i]).len() > 0,
        forall|i: int, k: int|
            0 <= i < whitespace_words(s).len() && 0 <= k < whitespace_words(s)[i].len()
                ==> !white_space_list().contains(#[trigger] whitespace_words(s)[i][k]),
{
    lemma_scan_words_clean(s);
    let sc = scan_words(s);
    let w = whitespace_words(s);
    assert forall|i: int, k: int|
        0 <= i < w.len() && 0 <= k < w[i].len() implies !white_space_list().contains(
        #[trigger] w[i][k],
    ) by {
        law_white_space_is_unicode_white_space(w[i][k]);
        if i < sc.words.len() {
            assert(w[i] == sc.words[i]);
        } else {
            assert(w[i] == sc.current);
        }
    }
    assert forall|i: int| 0 <= i < w.len() implies (#[trigger] w[i]).len() > 0 by {
        if i < sc.words.len() {
            assert(w[i] == sc.words[i]);
        }
    }
}

/// White_Space at the end of a line changes none of its words.
pub proof fn law_trailing_white_space_is_ignored(s: Seq<char>, c: char)
    requires
        white_space_list().contains(c),
    ensures
        whitespace_words(s.push(c)) == whitespace_words(s),
{
    law_white_space_is_unicode_white_space(c);
    assert(s.push(c).drop_last() =~= s);
}

/// A line ended by a carriage return and a line feed, as a console on
/// Windows gives it, has the words of the line without them, so the console
/// does the same with it.
pub proof fn law_line_ending_changes_no_command(
    online: bool,
    line: Seq<char>,
    action: ConsoleAction,
    online_after: bool,
)
    ensures
        whitespace_words(line + seq!['\r', '\n']) == whitespace_words(line),
        console_step(online, whitespace_words(line + seq!['\r', '\n']), action, online_after)
            == console_step(online, whitespace_words(line), action, online_after),
{
    assert(white_space_list()[4] == '\r');
    assert(white_space_list()[1] == '\n');
    law_trailing_white_space_is_ignored(line, '\r');
    law_trailing_white_space_is_ignored(line.push('\r'), '\n');
    assert(line + seq!['\r', '\n'] =~= line.push('\r').push('\n'));
}

/// The feeds start only for ethbtc, ethusdt or btcusdt, and only from a
/// console that is offline and a line whose first word is `start`.
pub proof fn law_only_three_symbols_start(
    online: bool,
    words: Seq<Seq<char>>,
    action: ConsoleAction,
    online_after: bool,
)
    requires
        console_step(online, words, action, online_after),
        action is Start,
    ensures
        !online,
        online_after,
        words.len() >= 2,
        words[0] == "start"@,
        action->Start_0@ == words[1],
        words[1] == "ethbtc"@ || words[1] == "ethusdt"@ || words[1] == "btcusdt"@,
{
}

/// Each of ethbtc, ethusdt and btcusdt starts the feeds from an offline
/// console.
pub proof fn law_each_listed_symbol_starts(words: Seq<Seq<char>>, action: ConsoleAction, online_after: bool)
    requires
        words.len() >= 2,
        words[0] == "start"@,
        words[1] == "ethbtc"@ || words[1] == "ethusdt"@ || words[1] == "btcusdt"@,
        console_step(false, words, action, online_after),
    ensures
        action matches ConsoleAction::Start(p) && p@ == words[1],
        online_after,
{
    reveal_strlit("start");
    reveal_strlit("continue");
    reveal_strlit("quit");
    assert("start"@[0] == 's' && "continue"@[0] == 'c' && "quit"@[0] == 'q');
    assert("start"@ != "continue"@);
    assert("start"@ != "quit"@);
}

/// A line with no words, or the word `continue`, does nothing and keeps the
/// feeds as they were; the feeds go online only by an accepted `start` from
/// offline, and offline only by `stop` from online.
pub proof fn law_status_changes_only_by_start_and_stop(
    online: bool,
    words: Seq<Seq<char>>,
    action: ConsoleAction,
    online_after: bool,
)
    requires
        console_step(online, words, action, online_after),
    ensures
        (words.len() == 0 || words[0] == "continue"@) ==> action is Nothing && online_after == online,
        !online && online_after ==> action is Start,
        online && !online_after ==> action is Stop,
{
}

} // verus!
