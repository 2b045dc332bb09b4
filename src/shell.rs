use vstd::prelude::*;

verus! {

/// A decoded key press, as far as the shell tells keys apart.
#[derive(Clone, Copy, PartialEq, Eq, Structural, Debug)]
pub enum Key {
    /// A key that produces a character.
    Unicode(char),
    ArrowUp,
    ArrowDown,
    ArrowLeft,
    ArrowRight,
    /// Any other key; the shell ignores it.
    Other,
}

/// Why a command line could not be run.
#[derive(Debug)]
pub enum ShellError {
    /// No command has this name.
    CommandNotFound(Vec<char>),
}

/// The backspace character.
pub const BACKSPACE: char = '\u{8}';

/// The characters that separate words on a command line: Unicode's White_Space property.
pub open spec fn is_whitespace(c: char) -> bool {
    ||| c == ' '
    ||| ('\t' <= c && c <= '\r')
    ||| c == '\u{85}'
    ||| c == '\u{a0}'
    ||| c == '\u{1680}'
    ||| ('\u{2000}' <= c && c <= '\u{200a}')
    ||| c == '\u{2028}'
    ||| c == '\u{2029}'
    ||| c == '\u{202f}'
    ||| c == '\u{205f}'
    ||| c == '\u{3000}'
}

/// Reading `s` from the left: the words completed so far and the word being read.
pub open spec fn scan_words(s: Seq<char>) -> (Seq<Seq<char>>, Seq<char>)
    decreases s.len(),
{
    if s.len() == 0 {
        (Seq::empty(), Seq::empty())
    } else {
        let (done, cur) = scan_words(s.drop_last());
        let c = s.last();
        if is_whitespace(c) {
            if cur.len() > 0 {
                (done.push(cur), Seq::empty())
            } else {
                (done, Seq::empty())
            }
        } else {
            (done, cur.push(c))
        }
    }
}

/// The maximal runs of characters other than whitespace in `s`, from left to right.
pub open spec fn words(s: Seq<char>) -> Seq<Seq<char>> {
    let (done, cur) = scan_words(s);
    if cur.len() > 0 {
        done.push(cur)
    } else {
        done
    }
}

/// The words joined with one space between each two.
pub open spec fn join(ws: Seq<Seq<char>>) -> Seq<char>
    decreases ws.len(),
{
    if ws.len() == 0 {
        Seq::empty()
    } else if ws.len() == 1 {
        ws[0]
    } else {
        join(ws.drop_last()) + seq![' '] + ws.last()
    }
}

/// The text of the `help` command.
pub open spec fn help_text() -> Seq<char> {
    seq![
        'A', 'v', 'a', 'i', 'l', 'a', 'b', 'l', 'e', ' ', 'c', 'o', 'm', 'm', 'a', 'n', 'd', 's', ':', '\n',
        ' ', ' ', 'e', 'c', 'h', 'o', '\n', ' ', ' ', 'h', 'e', 'l', 'p', '\n', ' ', ' ', 'c', 'l', 'e', 'a', 'r', '\n',
    ]
}

/// The words that name the commands.
pub open spec fn echo_word() -> Seq<char> {
    seq!['e', 'c', 'h', 'o']
}

pub open spec fn help_word() -> Seq<char> {
    seq!['h', 'e', 'l', 'p']
}

pub open spec fn clear_word() -> Seq<char> {
    seq!['c', 'l', 'e', 'a', 'r']
}

/// The number of blank lines that `clear` prints.
pub const CLEAR_LINES: usize = 100;

/// What running `command` with `args` prints, or the command itself when none has that name.
pub open spec fn command_output(command: Seq<char>, args: Seq<Seq<char>>) -> Result<Seq<char>, Seq<char>> {
    if command == echo_word() {
        Ok(join(args) + seq!['\n'])
    } else if command == help_word() {
        Ok(help_text())
    } else if command == clear_word() {
        Ok(Seq::new(CLEAR_LINES as nat, |i: int| '\n'))
    } else {
        Err(command)
    }
}

/// The message for a command that was not found.
pub open spec fn not_found_message(command: Seq<char>) -> Seq<char> {
    seq![
        'c', 'o', 'm', 'm', 'a', 'n', 'd', ' ', 'n', 'o', 't', ' ', 'f', 'o', 'u', 'n', 'd', ':', ' ',
    ] + command
}

/// What starts the input line.
pub open spec fn prompt() -> Seq<char> {
    seq!['\r', '>', ' ']
}

/// The views of a row of character vectors.
pub open spec fn views(v: Seq<Vec<char>>) -> Seq<Seq<char>> {
    v.map_values(|w: Vec<char>| w@)
}

/// The shell's state: the line being edited, the cursor in it, the commands run so far, and how
/// far back in them the arrow keys have gone.
pub struct ShellState {
    pub buffer: Seq<char>,
    pub cursor: int,
    pub history: Seq<Seq<char>>,
    pub history_index: int,
}

impl ShellState {
    pub open spec fn wf(self) -> bool {
        &&& 0 <= self.cursor <= self.buffer.len()
        &&& 0 <= self.history_index <= self.history.len()
    }

    /// The input line as it is drawn.
    pub open spec fn render(self) -> Seq<char> {
        prompt() + self.buffer + seq![' ']
    }

    /// The line replaced by the command `history_index` steps back, or emptied at step 0, after
    /// the old line is blanked out on screen.
    pub open spec fn replace_buffer(self) -> (ShellState, Seq<char>) {
        let out = prompt() + Seq::new(self.buffer.len(), |i: int| ' ') + seq!['\r'];
        let b = if self.history_index == 0 {
            Seq::empty()
        } else {
            self.history[self.history.len() - self.history_index]
        };
        (ShellState { buffer: b, cursor: b.len() as int, ..self }, out)
    }

    /// Enter: the line is run as a command, kept in the history, and cleared.
    pub open spec fn process_buffer(self) -> (ShellState, Seq<char>) {
        if self.buffer.len() == 0 {
            (self, seq!['\n'])
        } else {
            let ws = words(self.buffer);
            let command = if ws.len() > 0 {
                ws[0]
            } else {
                Seq::empty()
            };
            let args = if ws.len() > 0 {
                ws.drop_first()
            } else {
                Seq::empty()
            };
            let out = match command_output(command, args) {
                Ok(o) => o,
                Err(c) => not_found_message(c) + seq!['\n'],
            };
            (
                ShellState {
                    buffer: Seq::empty(),
                    cursor: 0,
                    history: self.history.push(self.buffer),
                    ..self
                },
                seq!['\n'] + out,
            )
        }
    }

    /// A character typed: newline runs the line, backspace deletes before the cursor, anything
    /// else is inserted at the cursor.
    pub open spec fn process_unicode(self, c: char) -> (ShellState, Seq<char>) {
        if c == '\n' {
            self.process_buffer()
        } else if c == BACKSPACE {
            if self.cursor == 0 {
                (self, Seq::empty())
            } else {
                (
                    ShellState {
                        buffer: self.buffer.remove(self.cursor - 1),
                        cursor: self.cursor - 1,
                        ..self
                    },
                    Seq::empty(),
                )
            }
        } else {
            (
                ShellState {
                    buffer: self.buffer.insert(self.cursor, c),
                    cursor: self.cursor + 1,
                    ..self
                },
                Seq::empty(),
            )
        }
    }

    /// A key press, and everything printed for it, the redrawn input line last.
    pub open spec fn handle_keypress(self, key: Key) -> (ShellState, Seq<char>) {
        let (s, out) = match key {
            Key::Unicode(c) => self.process_unicode(c),
            Key::ArrowUp => if self.history_index < self.history.len() {
                ShellState { history_index: self.history_index + 1, ..self }.replace_buffer()
            } else {
                (self, Seq::empty())
            },
            Key::ArrowDown => if self.history_index > 0 {
                ShellState { history_index: self.history_index - 1, ..self }.replace_buffer()
            } else {
                (self, Seq::empty())
            },
            Key::ArrowLeft => (
                ShellState {
                    cursor: if self.cursor == 0 {
                        0
                    } else {
                        self.cursor - 1
                    },
                    ..self
                },
                Seq::empty(),
            ),
            Key::ArrowRight => (
                ShellState {
                    cursor: if self.cursor + 1 < self.buffer.len() {
                        self.cursor + 1
                    } else {
                        self.buffer.len() as int
                    },
                    ..self
                },
                Seq::empty(),
            ),
            Key::Other => (self, Seq::empty()),
        };
        (s, out + s.render())
    }
}

/// Appends the characters of `s` to `out`.
fn append(out: &mut Vec<char>, s: &Vec<char>)
    ensures
        final(out)@ == old(out)@ + s@,
{
    let mut i: usize = 0;
    while i < s.len()
        invariant
            i <= s@.len(),
            out@ == old(out)@ + s@.take(i as int),
        decreases s@.len() - i,
    {
        out.push(s[i]);
        i = i + 1;
        assert(out@ =~= old(out)@ + s@.take(i as int));
    }
    assert(s@.take(i as int) =~= s@);
}

/// A copy of `s`.
fn copy_chars(s: &Vec<char>) -> (r: Vec<char>)
    ensures
        r@ == s@,
{
    let mut r: Vec<char> = Vec::new();
    append(&mut r, s);
    assert(r@ =~= s@);
    r
}

/// Whether `a` and `b` hold the same characters.
fn same_chars(a: &Vec<char>, b: &Vec<char>) -> (r: bool)
    ensures
        r == (a@ == b@),
{
    if a.len() != b.len() {
        return false;
    }
    let mut i: usize = 0;
    while i < a.len()
        invariant
            a@.len() == b@.len(),
            i <= a@.len(),
            forall|k: int| 0 <= k < i ==> a@[k] == b@[k],
        decreases a@.len() - i,
    {
        if a[i] != b[i] {
            return false;
        }
        i = i + 1;
    }
    assert(a@ =~= b@);
    true
}

/// Whether `c` separates words.
fn is_whitespace_char(c: char) -> (r: bool)
    ensures
        r == is_whitespace(c),
{
    c == ' ' || ('\t' <= c && c <= '\r') || c == '\u{85}' || c == '\u{a0}' || c == '\u{1680}' || (
    '\u{2000}' <= c && c <= '\u{200a}') || c == '\u{2028}' || c == '\u{2029}' || c == '\u{202f}'
        || c == '\u{205f}' || c == '\u{3000}'
}

/// The words of `s`, split at whitespace.
fn split_whitespace(s: &Vec<char>) -> (r: Vec<Vec<char>>)
    ensures
        views(r@) == words(s@),
{
    let mut done: Vec<Vec<char>> = Vec::new();
    let mut cur: Vec<char> = Vec::new();
    let mut i: usize = 0;
    while i < s.len()
        invariant
            i <= s@.len(),
            (views(done@), cur@) == scan_words(s@.take(i as int)),
        decreases s@.len() - i,
    {
        let c = s[i];
        proof {
            assert(s@.take(i + 1).drop_last() =~= s@.take(i as int));
        }
        if is_whitespace_char(c) {
            if cur.len() > 0 {
                let w = cur;
                done.push(w);
                cur = Vec::new();
                assert(views(done@) =~= scan_words(s@.take(i + 1)).0);
                assert(cur@ =~= scan_words(s@.take(i + 1)).1);
            } else {
                cur = Vec::new();
                assert(cur@ =~= scan_words(s@.take(i + 1)).1);
            }
        } else {
            cur.push(c);
        }
        i = i + 1;
    }
    assert(s@.take(i as int) =~= s@);
    if cur.len() > 0 {
        let w = cur;
        done.push(w);
        assert(views(done@) =~= words(s@));
    }
    done
}

/// The words joined with one space between each two.
fn join_words(ws: &Vec<Vec<char>>) -> (r: Vec<char>)
    ensures
        r@ == join(views(ws@)),
{
    let mut r: Vec<char> = Vec::new();
    let mut i: usize = 0;
    while i < ws.len()
        invariant
            i <= ws@.len(),
            r@ == join(views(ws@).take(i as int)),
        decreases ws@.len() - i,
    {
        proof {
            assert(views(ws@).take(i + 1).drop_last() =~= views(ws@).take(i as int));
        }
        if i > 0 {
            r.push(' ');
        }
        append(&mut r, &ws[i]);
        i = i + 1;
        proof {
            if i == 1 {
                assert(r@ =~= join(views(ws@).take(i as int)));
            } else {
                assert(r@ =~= join(views(ws@).take(i as int)));
            }
        }
    }
    assert(views(ws@).take(i as int) =~= views(ws@));
    r
}

/// Runs `command` with `args` and returns what it prints.
fn run_command(command: &Vec<char>, args: &Vec<Vec<char>>) -> (r: Result<Vec<char>, ShellError>)
    ensures
        match (r, command_output(command@, views(args@))) {
            (Ok(o), Ok(spec_o)) => o@ == spec_o,
            (Err(ShellError::CommandNotFound(c)), Err(spec_c)) => c@ == spec_c,
            _ => false,
        },
{
    let echo = vec!['e', 'c', 'h', 'o'];
    let help = vec!['h', 'e', 'l', 'p'];
    let clear = vec!['c', 'l', 'e', 'a', 'r'];
    assert(echo@ =~= echo_word());
    assert(help@ =~= help_word());
    assert(clear@ =~= clear_word());
    if same_chars(command, &echo) {
        let mut out = join_words(args);
        out.push('\n');
        Ok(out)
    } else if same_chars(command, &help) {
        let out = vec![
            'A', 'v', 'a', 'i', 'l', 'a', 'b', 'l', 'e', ' ', 'c', 'o', 'm', 'm', 'a', 'n', 'd', 's', ':', '\n',
            ' ', ' ', 'e', 'c', 'h', 'o', '\n', ' ', ' ', 'h', 'e', 'l', 'p', '\n', ' ', ' ', 'c', 'l', 'e', 'a', 'r', '\n',
        ];
        assert(out@ =~= help_text());
        Ok(out)
    } else if same_chars(command, &clear) {
        let mut out: Vec<char> = Vec::new();
        let mut i: usize = 0;
        while i < CLEAR_LINES
            invariant
                i <= CLEAR_LINES,
                out@ == Seq::new(i as nat, |k: int| '\n'),
            decreases CLEAR_LINES - i,
        {
            out.push('\n');
            i = i + 1;
            assert(out@ =~= Seq::new(i as nat, |k: int| '\n'));
        }
        Ok(out)
    } else {
        Err(ShellError::CommandNotFound(copy_chars(command)))
    }
}

impl ShellError {
    /// The message that describes the error.
    pub fn message(&self) -> (r: Vec<char>)
        ensures
            match self {
                ShellError::CommandNotFound(c) => r@ == not_found_message(c@),
            },
    {
        match self {
            ShellError::CommandNotFound(c) => {
                let mut out = vec![
                    'c', 'o', 'm', 'm', 'a', 'n', 'd', ' ', 'n', 'o', 't', ' ', 'f', 'o', 'u', 'n', 'd', ':', ' ',
                ];
                append(&mut out, c);
                assert(out@ =~= not_found_message(c@));
                out
            },
        }
    }
}

/// A line-editing command shell. Key presses edit the input line; Enter runs it; the arrow keys
/// move the cursor and walk back through earlier commands. Every call returns the text to print.
pub struct Shell {
    buffer: Vec<char>,
    cursor_pos: usize,
    command_history: Vec<Vec<char>>,
    command_history_index: usize,
}

impl View for Shell {
    type V = ShellState;

    closed spec fn view(&self) -> ShellState {
        ShellState {
            buffer: self.buffer@,
            cursor: self.cursor_pos as int,
            history: views(self.command_history@),
            history_index: self.command_history_index as int,
        }
    }
}

impl Shell {
    pub open spec fn wf(&self) -> bool {
        self@.wf()
    }

    /// A shell with an empty line and no history.
    pub fn new() -> (r: Shell)
        ensures
            r.wf(),
            r@.buffer.len() == 0,
            r@.cursor == 0,
            r@.history.len() == 0,
            r@.history_index == 0,
    {
        let r = Shell {
            buffer: Vec::new(),
            cursor_pos: 0,
            command_history: Vec::new(),
            command_history_index: 0,
        };
        assert(r@.history =~= Seq::<Seq<char>>::empty());
        r
    }

    /// The input line as it is drawn.
    pub fn render_input_line(&self) -> (r: Vec<char>)
        ensures
            r@ == self@.render(),
    {
        let mut out = vec!['\r', '>', ' '];
        append(&mut out, &self.buffer);
        out.push(' ');
        assert(out@ =~= self@.render());
        out
    }

    /// Handles one key press and returns what it prints, the redrawn input line last.
    pub fn handle_keypress(&mut self, key: Key) -> (r: Vec<char>)
        requires
            old(self).wf(),
        ensures
            final(self).wf(),
            (final(self)@, r@) == old(self)@.handle_keypress(key),
    {
        let mut out = match key {
            Key::Unicode(c) => self.process_unicode(c),
            Key::ArrowUp => {
                if self.command_history_index < self.command_history.len() {
                    self.command_history_index = self.command_history_index + 1;
                    self.replace_buffer_with_past_command()
                } else {
                    Vec::new()
                }
            },
            Key::ArrowDown => {
                if self.command_history_index > 0 {
                    self.command_history_index = self.command_history_index - 1;
                    self.replace_buffer_with_past_command()
                } else {
                    Vec::new()
                }
            },
            Key::ArrowLeft => {
                self.cursor_pos = if self.cursor_pos == 0 {
                    0
                } else {
                    self.cursor_pos - 1
                };
                Vec::new()
            },
            Key::ArrowRight => {
                self.cursor_pos = if self.cursor_pos < self.buffer.len() {
                    self.cursor_pos + 1
                } else {
                    self.buffer.len()
                };
                Vec::new()
            },
            Key::Other => Vec::new(),
        };
        let line = self.render_input_line();
        append(&mut out, &line);
        out
    }

    /// Blanks the input line on screen and replaces it by the command `command_history_index`
    /// steps back, or by an empty line at step 0.
    fn replace_buffer_with_past_command(&mut self) -> (r: Vec<char>)
        requires
            old(self).wf(),
        ensures
            final(self).wf(),
            (final(self)@, r@) == old(self)@.replace_buffer(),
    {
        let mut out = vec!['\r', '>', ' '];
        let mut i: usize = 0;
        while i < self.buffer.len()
            invariant
                i <= self@.buffer.len(),
                self@ == old(self)@,
                out@ == prompt() + Seq::new(i as nat, |k: int| ' '),
            decreases self@.buffer.len() - i,
        {
            out.push(' ');
            i = i + 1;
            assert(out@ =~= prompt() + Seq::new(i as nat, |k: int| ' '));
        }
        out.push('\r');
        self.buffer = if self.command_history_index == 0 {
            Vec::new()
        } else {
            copy_chars(&self.command_history[self.command_history.len() - self.command_history_index])
        };
        self.cursor_pos = self.buffer.len();
        assert(out@ =~= old(self)@.replace_buffer().1);
        assert(self@.buffer =~= old(self)@.replace_buffer().0.buffer);
        out
    }

    /// Handles a typed character.
    fn process_unicode(&mut self, c: char) -> (r: Vec<char>)
        requires
            old(self).wf(),
        ensures
            final(self).wf(),
            (final(self)@, r@) == old(self)@.process_unicode(c),
    {
        if c == '\n' {
            self.process_buffer()
        } else if c == BACKSPACE {
            if self.cursor_pos == 0 {
                return Vec::new();
            }
            self.cursor_pos = self.cursor_pos - 1;
            if self.cursor_pos == self.buffer.len() {
                self.buffer.pop();
            } else {
                self.buffer.remove(self.cursor_pos);
            }
            Vec::new()
        } else {
            let len = self.buffer.len();
            if self.cursor_pos == len {
                self.buffer.push(c);
            } else {
                self.buffer.insert(self.cursor_pos, c);
            }
            let n = self.buffer.len();
            assert(self.cursor_pos < n);
            self.cursor_pos = self.cursor_pos + 1;
            assert(self@.buffer =~= old(self)@.process_unicode(c).0.buffer);
            Vec::new()
        }
    }

    /// Runs the input line as a command, records it, and clears the line.
    fn process_buffer(&mut self) -> (r: Vec<char>)
        requires
            old(self).wf(),
        ensures
            final(self).wf(),
            (final(self)@, r@) == old(self)@.process_buffer(),
    {
        let mut out = vec!['\n'];
        if self.buffer.len() == 0 {
            return out;
        }
        let line = copy_chars(&self.buffer);
        self.command_history.push(line);
        let mut args = split_whitespace(&self.buffer);
        let command = if args.len() > 0 {
            args.remove(0)
        } else {
            Vec::new()
        };
        proof {
            let ws = words(old(self)@.buffer);
            if ws.len() > 0 {
                assert(views(args@) =~= ws.drop_first());
            } else {
                assert(views(args@) =~= Seq::<Seq<char>>::empty());
            }
        }
        match run_command(&command, &args) {
            Ok(o) => append(&mut out, &o),
            Err(err) => {
                let msg = err.message();
                append(&mut out, &msg);
                out.push('\n');
            },
        }
        self.buffer.clear();
        self.cursor_pos = 0;
        assert(self@.history =~= old(self)@.history.push(old(self)@.buffer));
        assert(self@.buffer =~= Seq::<char>::empty());
        assert(out@ =~= old(self)@.process_buffer().1);
        out
    }
}

} // verus!
