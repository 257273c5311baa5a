//! A pretend adapter: replies from recorded data, for sessions without a
//! vehicle. The delay and the delivery of replies are the caller's.
use crate::json;
use crate::table::Table;
use crate::text;
use vstd::prelude::*;

verus! {

/// The recorded lines of one request.
#[derive(Debug, Clone)]
pub struct CarRow {
    pub mode: String,
    pub pid: String,
    pub lines: Vec<String>,
}

/// Recorded replies of a vehicle, by mode and pid.
#[derive(Debug, Clone)]
pub struct CarScanData {
    pub rows: Vec<CarRow>,
}

/// Recorded lines as a mathematical value.
#[verifier::ext_equal]
pub struct RowView {
    pub mode: Seq<char>,
    pub pid: Seq<char>,
    pub lines: Seq<Seq<char>>,
}

impl View for CarRow {
    type V = RowView;

    open spec fn view(&self) -> RowView {
        RowView { mode: self.mode@, pid: self.pid@, lines: text::views(self.lines@) }
    }
}

/// The views of rows.
pub open spec fn row_views(v: Seq<CarRow>) -> Seq<RowView> {
    Seq::new(v.len(), |i: int| v[i]@)
}

/// The recorded lines of a request; the last row of it counts.
pub open spec fn recorded(rows: Seq<RowView>, mode: Seq<char>, pid: Seq<char>) -> Option<
    Seq<Seq<char>>,
>
    decreases rows.len(),
{
    if rows.len() == 0 {
        None
    } else if rows.last().mode == mode && rows.last().pid == pid {
        Some(rows.last().lines)
    } else {
        recorded(rows.drop_last(), mode, pid)
    }
}

/// The rows of a mode: its members that are lists.
pub open spec fn mode_rows(mode: Seq<char>, m: Seq<(Seq<char>, Seq<char>)>) -> Seq<RowView>
    decreases m.len(),
{
    if m.len() == 0 {
        Seq::empty()
    } else {
        let before = mode_rows(mode, m.drop_last());
        match json::array_of(m.last().1) {
            Some(e) => before.push(
                RowView { mode, pid: m.last().0, lines: json::strings_among(e) },
            ),
            None => before,
        }
    }
}

/// The rows of a file: those of its members that are objects.
pub open spec fn file_rows(m: Seq<(Seq<char>, Seq<char>)>) -> Seq<RowView>
    decreases m.len(),
{
    if m.len() == 0 {
        Seq::empty()
    } else {
        let before = file_rows(m.drop_last());
        match json::object_of(m.last().1) {
            Some(inner) => before + mode_rows(m.last().0, inner),
            None => before,
        }
    }
}

fn read_mode(rows: &mut Vec<CarRow>, mode: &str, m: &Vec<(String, String)>)
    ensures
        row_views(final(rows)@) == row_views(old(rows)@) + mode_rows(mode@, json::pair_views(m@)),
{
    let ghost start = row_views(rows@);
    let ghost all = json::pair_views(m@);
    let mut i: usize = 0;
    assert(row_views(rows@) =~= start + mode_rows(mode@, all.take(0)));
    while i < m.len()
        invariant
            i <= m@.len(),
            all == json::pair_views(m@),
            row_views(rows@) == start + mode_rows(mode@, all.take(i as int)),
        decreases m@.len() - i,
    {
        assert(all.take(i + 1).drop_last() =~= all.take(i as int));
        assert(all.take(i + 1).last() == (m@[i as int].0@, m@[i as int].1@));
        let ghost before = row_views(rows@);
        if let Some(e) = json::elements(m[i].1.as_str()) {
            let lines = json::strings(&e);
            let row = CarRow { mode: mode.to_owned(), pid: m[i].0.clone(), lines };
            let ghost rv = row@;
            rows.push(row);
            assert(row_views(rows@) =~= before.push(rv));
            assert(row_views(rows@) =~= start + mode_rows(mode@, all.take(i + 1)));
        }
        i += 1;
    }
    assert(all.take(i as int) =~= all);
}

impl CarScanData {
    /// Reads recorded data from JSON: modes, in them pids, in them lists of
    /// lines. What is of another shape is left out; a text that is no object is
    /// no recorded data.
    pub fn parse(text_json: &str) -> (r: Option<CarScanData>)
        ensures
            r is Some <==> json::object_of(text_json@) is Some,
            r matches Some(d) ==> row_views(d.rows@) == file_rows(
                json::object_of(text_json@)->0,
            ),
    {
        let m = match json::members(text_json) {
            Some(m) => m,
            None => {
                return None;
            },
        };
        let ghost all = json::pair_views(m@);
        let mut rows: Vec<CarRow> = Vec::new();
        let mut i: usize = 0;
        assert(row_views(rows@) =~= file_rows(all.take(0)));
        while i < m.len()
            invariant
                i <= m@.len(),
                all == json::pair_views(m@),
                row_views(rows@) == file_rows(all.take(i as int)),
            decreases m@.len() - i,
        {
            assert(all.take(i + 1).drop_last() =~= all.take(i as int));
            assert(all.take(i + 1).last() == (m@[i as int].0@, m@[i as int].1@));
            if let Some(inner) = json::members(m[i].1.as_str()) {
                read_mode(&mut rows, m[i].0.as_str(), &inner);
            }
            i += 1;
        }
        assert(all.take(i as int) =~= all);
        Some(CarScanData { rows })
    }

    fn lookup(&self, mode: &str, pid: &str) -> (r: Option<&Vec<String>>)
        ensures
            match r {
                Some(v) => recorded(row_views(self.rows@), mode@, pid@) == Some(text::views(v@)),
                None => recorded(row_views(self.rows@), mode@, pid@) is None,
            },
    {
        let ghost all = row_views(self.rows@);
        let mut n: usize = self.rows.len();
        assert(all.take(n as int) =~= all);
        while n > 0
            invariant
                n <= self.rows@.len(),
                all == row_views(self.rows@),
                recorded(all, mode@, pid@) == recorded(all.take(n as int), mode@, pid@),
            decreases n,
        {
            assert(all.take(n as int).drop_last() =~= all.take(n - 1));
            assert(all.take(n as int).last() == self.rows@[n - 1]@);
            n -= 1;
            if text::same(self.rows[n].mode.as_str(), mode) && text::same(
                self.rows[n].pid.as_str(),
                pid,
            ) {
                return Some(&self.rows[n].lines);
            }
        }
        None
    }
}

// ---- the responder ----

/// A pretend adapter.
pub struct MockResponder {
    /// Replies that were set by hand.
    pub mock_responses: Table<String>,
    pub car_scan_data: Option<CarScanData>,
    /// The header that requests go to.
    pub current_controller: String,
    /// Only that controller answers.
    pub only_return_ecu: bool,
    pub response_delay_ms: u64,
    pub command_history: Vec<String>,
    /// Commands that fail instead of being answered.
    pub error_commands: Vec<String>,
}

/// The pretend adapter as a mathematical value.
#[verifier::ext_equal]
pub struct ResponderView {
    pub responses: Map<Seq<char>, Seq<char>>,
    pub car: Option<Seq<RowView>>,
    pub target: Seq<char>,
    pub only_target: bool,
    pub delay_ms: u64,
    pub history: Seq<Seq<char>>,
    pub errors: Seq<Seq<char>>,
}

impl View for MockResponder {
    type V = ResponderView;

    open spec fn view(&self) -> ResponderView {
        ResponderView {
            responses: self.mock_responses@.map_values(|s: String| s@),
            car: match self.car_scan_data {
                Some(d) => Some(row_views(d.rows@)),
                None => None,
            },
            target: self.current_controller@,
            only_target: self.only_return_ecu,
            delay_ms: self.response_delay_ms,
            history: text::views(self.command_history@),
            errors: text::views(self.error_commands@),
        }
    }
}

/// A text without spaces.
pub open spec fn without_spaces(s: Seq<char>) -> Seq<char>
    decreases s.len(),
{
    if s.len() == 0 {
        s
    } else if s.last() == ' ' {
        without_spaces(s.drop_last())
    } else {
        without_spaces(s.drop_last()).push(s.last())
    }
}

/// How many bytes a text takes in UTF-8, counted up to five.
pub open spec fn short_len(s: Seq<char>) -> nat
    decreases s.len(),
{
    if s.len() == 0 {
        0
    } else {
        let n = short_len(s.drop_last()) + text::width(s.last());
        if n > 5 {
            5
        } else {
            n
        }
    }
}

/// How many characters make up the first two bytes of a text; none where a
/// character lies across them or there are fewer bytes.
pub open spec fn mode_chars(s: Seq<char>) -> Option<nat> {
    if s.len() >= 1 && text::width(s[0]) == 2 {
        Some(1)
    } else if s.len() >= 2 && text::width(s[0]) == 1 && text::width(s[1]) == 1 {
        Some(2)
    } else {
        None
    }
}

/// The lines that begin with an address.
pub open spec fn from_address(lines: Seq<Seq<char>>, address: Seq<char>) -> Seq<Seq<char>>
    decreases lines.len(),
{
    if lines.len() == 0 {
        lines
    } else if text::starts_with(lines.last(), address) {
        from_address(lines.drop_last(), address).push(lines.last())
    } else {
        from_address(lines.drop_last(), address)
    }
}

/// The largest request id whose response id fits 32 bits.
pub const MAX_REQUEST: u32 = 0xFFFF_FFF7;

/// The lines of the controller that a request header addresses, joined; no data
/// where there are none.
pub open spec fn answers_of(lines: Seq<Seq<char>>, request: nat) -> Seq<char> {
    let mine = from_address(lines, text::hex_padded(request + 8, 3));
    if mine.len() == 0 {
        "NO DATA"@
    } else {
        text::join(mine, "\r"@)
    }
}

/// Whether a command changes the header, and to what.
pub open spec fn new_target(normal: Seq<char>) -> Option<Seq<char>> {
    if normal == "ATSH7DF"@ {
        Some("7DF"@)
    } else if text::starts_with(normal, "ATSH7E"@) {
        Some(normal.skip(4))
    } else {
        None
    }
}

/// The recorded reply to a command that is no change of the header; nothing
/// where there is none.
pub open spec fn recorded_reply(
    rows: Seq<RowView>,
    normal: Seq<char>,
    target: Seq<char>,
    only_target: bool,
) -> Option<Seq<char>> {
    let request = text::hex_within(target, MAX_REQUEST as nat);
    let len = short_len(normal);
    if text::starts_with(normal, "09"@) && len == 4 && target != "7DF"@ {
        match (recorded(rows, "09"@, normal.skip(2)), request) {
            (Some(lines), Some(req)) => Some(answers_of(lines, req)),
            _ => Some("NO DATA"@),
        }
    } else if len < 2 || mode_chars(normal) is None {
        None
    } else {
        let n = mode_chars(normal)->0 as int;
        let mode = text::upper(normal.take(n));
        let pid = text::upper(normal.skip(n));
        if len == 2 {
            match recorded(rows, mode, "data"@) {
                Some(lines) => Some(text::join(lines, "\r"@)),
                None => Some("NO DATA"@),
            }
        } else if len == 4 && short_len(pid) == 2 {
            match recorded(rows, mode, pid) {
                None => None,
                Some(lines) => if !only_target {
                    Some(text::join(lines, "\r"@))
                } else {
                    match request {
                        Some(req) => Some(answers_of(lines, req)),
                        None => if lines.len() > 0 {
                            Some(lines[0])
                        } else {
                            None
                        },
                    }
                },
            }
        } else {
            None
        }
    }
}

/// The reply to a command of which nothing is recorded.
pub open spec fn usual_reply(normal: Seq<char>) -> Seq<char> {
    if normal == "ATZ"@ {
        "ELM327 v1.5"@
    } else if normal == "STBC1"@ || normal == "STBCOF0"@ {
        "?"@
    } else if normal == "010C"@ {
        "41 0C 1A F8"@
    } else if normal == "010D"@ {
        "41 0D 00"@
    } else if normal == "0105"@ {
        "41 05 7B"@
    } else if normal == "ATRV"@ {
        "13.2V"@
    } else if normal == "0902"@ {
        "49 02 01 32 46 30 35 55 57 4A 46 00 00 00 00 00"@
    } else {
        "OK"@
    }
}

/// Whether a command has a reply: where it is looked up among the recorded ones,
/// its first two bytes, its mode, have to be whole characters.
pub open spec fn responds(r: ResponderView, command: Seq<char>) -> bool {
    let normal = without_spaces(command);
    r.car is Some && !r.responses.contains_key(command) && short_len(normal) >= 2 ==> mode_chars(
        normal,
    ) is Some
}

/// The reply to a command, and the adapter after it.
pub open spec fn respond(r: ResponderView, command: Seq<char>) -> (Seq<char>, ResponderView) {
    let noted = ResponderView { history: r.history.push(command), ..r };
    let normal = without_spaces(command);
    if r.responses.contains_key(command) {
        (r.responses[command], noted)
    } else {
        match r.car {
            None => (usual_reply(normal), noted),
            Some(rows) => match new_target(normal) {
                Some(t) => (
                    "OK"@,
                    ResponderView { target: t, only_target: normal != "ATSH7DF"@, ..noted },
                ),
                None => match recorded_reply(rows, normal, r.target, r.only_target) {
                    Some(s) => (s, noted),
                    None => (usual_reply(normal), noted),
                },
            },
        }
    }
}

fn drop_spaces(s: &str) -> (r: String)
    ensures
        r@ == without_spaces(s@),
{
    let v = text::chars_of(s);
    let mut out = String::new();
    let mut i: usize = 0;
    assert(out@ =~= without_spaces(v@.take(0)));
    while i < v.len()
        invariant
            i <= v@.len(),
            out@ == without_spaces(v@.take(i as int)),
        decreases v@.len() - i,
    {
        assert(v@.take(i + 1).drop_last() =~= v@.take(i as int));
        if v[i] != ' ' {
            out.push(v[i]);
        }
        i += 1;
    }
    assert(v@.take(i as int) =~= v@);
    out
}

fn byte_count(s: &str) -> (r: usize)
    ensures
        r == short_len(s@),
        r <= 5,
{
    let v = text::chars_of(s);
    let mut n: usize = 0;
    let mut i: usize = 0;
    while i < v.len()
        invariant
            i <= v@.len(),
            n == short_len(v@.take(i as int)),
            n <= 5,
        decreases v@.len() - i,
    {
        assert(v@.take(i + 1).drop_last() =~= v@.take(i as int));
        n = n + text::char_width(v[i]);
        if n > 5 {
            n = 5;
        }
        i += 1;
    }
    assert(v@.take(i as int) =~= v@);
    n
}

fn lines_from(lines: &Vec<String>, address: &str) -> (r: Vec<String>)
    ensures
        text::views(r@) == from_address(text::views(lines@), address@),
{
    let ghost all = text::views(lines@);
    let mut out: Vec<String> = Vec::new();
    let mut i: usize = 0;
    assert(text::views(out@) =~= from_address(all.take(0), address@));
    while i < lines.len()
        invariant
            i <= lines@.len(),
            all == text::views(lines@),
            text::views(out@) == from_address(all.take(i as int), address@),
        decreases lines@.len() - i,
    {
        assert(all.take(i + 1).drop_last() =~= all.take(i as int));
        assert(all.take(i + 1).last() == lines@[i as int]@);
        let ghost before = text::views(out@);
        if text::begins_with(lines[i].as_str(), address) {
            out.push(lines[i].clone());
            assert(text::views(out@) =~= before.push(lines@[i as int]@));
        }
        i += 1;
    }
    assert(all.take(i as int) =~= all);
    out
}

fn controller_answers(lines: &Vec<String>, request: u32) -> (r: String)
    requires
        request <= MAX_REQUEST,
    ensures
        r@ == answers_of(text::views(lines@), request as nat),
{
    let address = text::hex_text(request + 8, 3);
    let mine = lines_from(lines, address.as_str());
    assert(text::views(mine@).len() == mine@.len());
    if mine.len() == 0 {
        "NO DATA".to_owned()
    } else {
        text::join_text(&mine, "\r")
    }
}

impl MockResponder {
    /// A pretend adapter without recorded data.
    pub fn new() -> (r: Self)
        ensures
            r@ == (ResponderView {
                responses: Map::empty(),
                car: None,
                target: "7DF"@,
                only_target: false,
                delay_ms: 50,
                history: Seq::empty(),
                errors: Seq::empty(),
            }),
    {
        let r = MockResponder {
            mock_responses: Table::new(),
            car_scan_data: None,
            current_controller: "7DF".to_owned(),
            only_return_ecu: false,
            response_delay_ms: 50,
            command_history: Vec::new(),
            error_commands: Vec::new(),
        };
        assert(r@.responses =~= Map::empty());
        assert(r@.history =~= Seq::empty());
        assert(r@.errors =~= Seq::empty());
        r
    }

    /// A pretend adapter with a delay of its own.
    pub fn with_delay(delay_ms: u64) -> (r: Self)
        ensures
            r@ == (ResponderView {
                responses: Map::empty(),
                car: None,
                target: "7DF"@,
                only_target: false,
                delay_ms,
                history: Seq::empty(),
                errors: Seq::empty(),
            }),
    {
        let mut r = MockResponder::new();
        r.response_delay_ms = delay_ms;
        r
    }

    /// Takes recorded data over from JSON; whether the text holds any. Data that
    /// was there before stays where it does not.
    pub fn load_car_scan_data(&mut self, text_json: &str) -> (r: bool)
        ensures
            r == (json::object_of(text_json@) is Some),
            final(self)@ == (if r {
                ResponderView {
                    car: Some(file_rows(json::object_of(text_json@)->0)),
                    ..old(self)@
                }
            } else {
                old(self)@
            }),
    {
        match CarScanData::parse(text_json) {
            Some(d) => {
                self.set_car_scan_data(d);
                true
            },
            None => false,
        }
    }

    /// Takes recorded data over.
    pub fn set_car_scan_data(&mut self, data: CarScanData)
        ensures
            final(self)@ == (ResponderView { car: Some(row_views(data.rows@)), ..old(self)@ }),
    {
        self.car_scan_data = Some(data);
    }

    /// Sets the reply to a command by hand.
    pub fn set_mock_response(&mut self, command: &str, response: &str)
        ensures
            final(self)@ == (ResponderView {
                responses: old(self)@.responses.insert(command@, response@),
                ..old(self)@
            }),
    {
        let ghost before = self@;
        self.mock_responses.insert(command.to_owned(), response.to_owned());
        assert(self@.responses =~= before.responses.insert(command@, response@));
    }

    /// Lets a command fail instead of being answered.
    pub fn set_mock_error(&mut self, command: &str)
        ensures
            final(self)@ == (ResponderView {
                errors: if old(self)@.errors.contains(command@) {
                    old(self)@.errors
                } else {
                    old(self)@.errors.push(command@)
                },
                ..old(self)@
            }),
    {
        let ghost before = self@;
        proof {
            text::lemma_contains_view(self.error_commands@, command@);
        }
        if !text::has_text(&self.error_commands, command) {
            self.error_commands.push(command.to_owned());
            assert(self@.errors =~= before.errors.push(command@));
        }
    }

    /// Whether a command fails; one that does is noted.
    pub fn should_error(&mut self, command: &str) -> (r: bool)
        ensures
            r == old(self)@.errors.contains(command@),
            final(self)@ == (if r {
                ResponderView { history: old(self)@.history.push(command@), ..old(self)@ }
            } else {
                old(self)@
            }),
    {
        proof {
            text::lemma_contains_view(self.error_commands@, command@);
        }
        let errors = text::has_text(&self.error_commands, command);
        if errors {
            self.record_command(command);
        }
        errors
    }

    /// The commands so far.
    pub fn get_command_history(&self) -> (r: Vec<String>)
        ensures
            text::views(r@) == self@.history,
    {
        text::clone_strings(&self.command_history)
    }

    /// Forgets the commands so far.
    pub fn clear_command_history(&mut self)
        ensures
            final(self)@ == (ResponderView { history: Seq::empty(), ..old(self)@ }),
    {
        self.command_history.clear();
        assert(self@.history =~= Seq::empty());
    }

    /// Notes a command.
    pub fn record_command(&mut self, command: &str)
        ensures
            final(self)@ == (ResponderView {
                history: old(self)@.history.push(command@),
                ..old(self)@
            }),
    {
        let ghost before = self@;
        self.command_history.push(command.to_owned());
        assert(self@.history =~= before.history.push(command@));
    }

    /// The delay of replies, in milliseconds.
    pub fn get_delay(&self) -> (r: u64)
        ensures
            r == self@.delay_ms,
    {
        self.response_delay_ms
    }

    /// Changes the delay of replies.
    pub fn set_delay(&mut self, delay_ms: u64)
        ensures
            final(self)@ == (ResponderView { delay_ms, ..old(self)@ }),
    {
        self.response_delay_ms = delay_ms;
    }

    /// Whether a command has a reply: where it is looked up among the recorded
    /// ones, its first two bytes, its mode, have to be whole characters.
    pub fn can_respond(&self, command: &str) -> (r: bool)
        ensures
            r == responds(self@, command@),
    {
        if self.car_scan_data.is_none() || self.mock_responses.has(command) {
            return true;
        }
        let normal = drop_spaces(command);
        if byte_count(normal.as_str()) < 2 {
            return true;
        }
        let v = text::chars_of(normal.as_str());
        text::char_width(v[0]) == 2 || (v.len() >= 2 && text::char_width(v[0]) == 1
            && text::char_width(v[1]) == 1)
    }

    /// The reply to a command: one that was set by hand, else a recorded one,
    /// else the usual one.
    pub fn generate_response(&mut self, command: &str) -> (r: String)
        requires
            responds(old(self)@, command@),
        ensures
            (r@, final(self)@) == respond(old(self)@, command@),
    {
        self.record_command(command);
        if let Some(response) = self.mock_responses.get(command) {
            return response.clone();
        }
        let normal = drop_spaces(command);
        if self.car_scan_data.is_some() {
            if text::same(normal.as_str(), "ATSH7DF") {
                self.only_return_ecu = false;
                self.current_controller = "7DF".to_owned();
                return "OK".to_owned();
            }
            if text::begins_with(normal.as_str(), "ATSH7E") {
                self.only_return_ecu = true;
                self.current_controller = skip_chars(normal.as_str(), 4);
                proof {
                    reveal_strlit("ATSH7E");
                }
                return "OK".to_owned();
            }
        }
        if let Some(d) = &self.car_scan_data {
            if let Some(s) = scan_reply(
                d,
                normal.as_str(),
                self.current_controller.as_str(),
                self.only_return_ecu,
            ) {
                return s;
            }
        }
        default_reply(normal.as_str())
    }
}

fn skip_chars(s: &str, n: usize) -> (r: String)
    ensures
        n <= s@.len() ==> r@ == s@.skip(n as int),
{
    let v = text::chars_of(s);
    if n <= v.len() {
        let r = text::substring(v.as_slice(), n, v.len());
        assert(r@ =~= s@.skip(n as int));
        r
    } else {
        String::new()
    }
}

fn scan_reply(data: &CarScanData, normal: &str, target: &str, only_target: bool) -> (r: Option<
    String,
>)
    ensures
        match r {
            Some(s) => recorded_reply(row_views(data.rows@), normal@, target@, only_target)
                == Some(s@),
            None => recorded_reply(row_views(data.rows@), normal@, target@, only_target) is None,
        },
{
    let request = text::parse_hex_text(target, MAX_REQUEST);
    let len: usize = byte_count(normal);
    if text::begins_with(normal, "09") && len == 4 && !text::same(target, "7DF") {
        proof {
            reveal_strlit("09");
        }
        let pid = skip_chars(normal, 2);
        return match (data.lookup("09", pid.as_str()), request) {
            (Some(lines), Some(req)) => Some(controller_answers(lines, req)),
            _ => Some("NO DATA".to_owned()),
        };
    }
    let v = text::chars_of(normal);
    let n: usize = if v.len() >= 1 && text::char_width(v[0]) == 2 {
        1
    } else if v.len() >= 2 && text::char_width(v[0]) == 1 && text::char_width(v[1]) == 1 {
        2
    } else {
        return None;
    };
    if len < 2 {
        return None;
    }
    let head = text::substring(v.as_slice(), 0, n);
    let tail = text::substring(v.as_slice(), n, v.len());
    assert(head@ =~= normal@.take(n as int));
    assert(tail@ =~= normal@.skip(n as int));
    let mode = text::to_upper(head.as_str());
    let pid = text::to_upper(tail.as_str());
    if len == 2 {
        return match data.lookup(mode.as_str(), "data") {
            Some(lines) => Some(text::join_text(lines, "\r")),
            None => Some("NO DATA".to_owned()),
        };
    }
    if len == 4 && byte_count(pid.as_str()) == 2 {
        return match data.lookup(mode.as_str(), pid.as_str()) {
            None => None,
            Some(lines) => if !only_target {
                Some(text::join_text(lines, "\r"))
            } else {
                match request {
                    Some(req) => Some(controller_answers(lines, req)),
                    None => if lines.len() > 0 {
                        assert(text::views(lines@)[0] == lines@[0]@);
                        Some(lines[0].clone())
                    } else {
                        None
                    },
                }
            },
        };
    }
    None
}

fn default_reply(normal: &str) -> (r: String)
    ensures
        r@ == usual_reply(normal@),
{
    if text::same(normal, "ATZ") {
        "ELM327 v1.5".to_owned()
    } else if text::same(normal, "STBC1") || text::same(normal, "STBCOF0") {
        "?".to_owned()
    } else if text::same(normal, "010C") {
        "41 0C 1A F8".to_owned()
    } else if text::same(normal, "010D") {
        "41 0D 00".to_owned()
    } else if text::same(normal, "0105") {
        "41 05 7B".to_owned()
    } else if text::same(normal, "ATRV") {
        "13.2V".to_owned()
    } else if text::same(normal, "0902") {
        "49 02 01 32 46 30 35 55 57 4A 46 00 00 00 00 00".to_owned()
    } else {
        "OK".to_owned()
    }
}

// ---- laws ----

/// A reply that was set by hand is the reply, whatever is recorded.
pub proof fn set_replies_come_first(r: ResponderView, command: Seq<char>, reply: Seq<char>)
    ensures
        respond(
            ResponderView { responses: r.responses.insert(command, reply), ..r },
            command,
        ).0 == reply,
{
}

/// Every command is noted, in order, and a reply changes nothing but the notes
/// and the header.
pub proof fn commands_are_noted(r: ResponderView, command: Seq<char>)
    ensures
        respond(r, command).1.history == r.history.push(command),
        respond(r, command).1.responses == r.responses,
        respond(r, command).1.car == r.car,
        respond(r, command).1.errors == r.errors,
        respond(r, command).1.delay_ms == r.delay_ms,
{
}

/// A controller that is addressed alone never hands out lines of another.
pub proof fn only_the_target_answers(lines: Seq<Seq<char>>, address: Seq<char>, i: int)
    requires
        0 <= i < from_address(lines, address).len(),
    ensures
        text::starts_with(from_address(lines, address)[i], address),
        lines.contains(from_address(lines, address)[i]),
    decreases lines.len(),
{
    let head = from_address(lines.drop_last(), address);
    if i < head.len() {
        only_the_target_answers(lines.drop_last(), address, i);
        let k = choose|k: int|
            0 <= k < lines.drop_last().len() && lines.drop_last()[k] == head[i];
        assert(lines[k] == head[i]);
    } else {
        assert(lines[lines.len() - 1] == lines.last());
    }
}

/// Spaces are taken out of a command and nothing else is.
pub proof fn only_spaces_are_taken_out(s: Seq<char>, c: char)
    ensures
        c != ' ' ==> without_spaces(s.push(c)) == without_spaces(s).push(c),
        without_spaces(s.push(' ')) == without_spaces(s),
        without_spaces(Seq::empty()).len() == 0,
{
    assert(s.push(c).drop_last() =~= s);
    assert(s.push(' ').drop_last() =~= s);
}

/// A text in ASCII takes a byte for each character.
pub proof fn ascii_takes_a_byte_each(s: Seq<char>)
    requires
        text::all_ascii(s),
    ensures
        s.len() <= 5 ==> short_len(s) == s.len(),
        s.len() >= 5 ==> short_len(s) == 5,
        s.len() >= 2 ==> mode_chars(s) == Some(2nat),
    decreases s.len(),
{
    if s.len() > 0 {
        let head = s.drop_last();
        assert forall|i: int| 0 <= i < head.len() implies (#[trigger] head[i] as u32) < 128 by {
            assert(head[i] == s[i]);
        }
        ascii_takes_a_byte_each(head);
        assert((s[s.len() - 1] as u32) < 128);
        assert((s[0] as u32) < 128);
        if s.len() >= 2 {
            assert((s[1] as u32) < 128);
        }
    }
}

/// A later recording of a request replaces an earlier one; recordings of other
/// requests stay.
pub proof fn the_last_recording_counts(
    rows: Seq<RowView>,
    row: RowView,
    mode: Seq<char>,
    pid: Seq<char>,
)
    ensures
        recorded(rows.push(row), row.mode, row.pid) == Some(row.lines),
        mode != row.mode || pid != row.pid ==> recorded(rows.push(row), mode, pid) == recorded(
            rows,
            mode,
            pid,
        ),
        recorded(Seq::empty(), mode, pid) is None,
{
    assert(rows.push(row).drop_last() =~= rows);
}

/// Every list of a mode is a recording of that mode under its own name, in the
/// order of the file; what is no list, and what is no object, is left out.
pub proof fn each_list_is_a_recording(
    mode: Seq<char>,
    m: Seq<(Seq<char>, Seq<char>)>,
    pid: Seq<char>,
    value: Seq<char>,
)
    ensures
        json::array_of(value) is Some ==> mode_rows(mode, m.push((pid, value))) == mode_rows(
            mode,
            m,
        ).push(RowView { mode, pid, lines: json::strings_among(json::array_of(value)->0) }),
        json::array_of(value) is None ==> mode_rows(mode, m.push((pid, value))) == mode_rows(
            mode,
            m,
        ),
        json::object_of(value) is None ==> file_rows(m.push((pid, value))) == file_rows(m),
        json::object_of(value) is Some ==> file_rows(m.push((pid, value))) == file_rows(m)
            + mode_rows(pid, json::object_of(value)->0),
{
    assert(m.push((pid, value)).drop_last() =~= m);
}

/// A controller that is asked alone answers eight ids above its request: its
/// lines are handed out in order, and those of others are not.
pub proof fn a_target_answers_eight_above(
    lines: Seq<Seq<char>>,
    line: Seq<char>,
    request: nat,
    other: Seq<char>,
)
    requires
        text::starts_with(line, text::hex_padded(request + 8, 3)),
        !text::starts_with(other, text::hex_padded(request + 8, 3)),
    ensures
        answers_of(Seq::empty(), request) == "NO DATA"@,
        answers_of(seq![line], request) == line,
        answers_of(lines.push(other), request) == answers_of(lines, request),
        from_address(lines.push(line), text::hex_padded(request + 8, 3)) == from_address(
            lines,
            text::hex_padded(request + 8, 3),
        ).push(line),
{
    let address = text::hex_padded(request + 8, 3);
    assert(lines.push(other).drop_last() =~= lines);
    assert(lines.push(line).drop_last() =~= lines);
    assert(seq![line].drop_last() =~= Seq::<Seq<char>>::empty());
    reveal_with_fuel(from_address, 2);
    assert(seq![line].last() == line);
    assert(from_address(seq![line], address) =~= seq![line]);
    assert(text::join(seq![line], "\r"@) == line);
}

/// A header that is set to a controller makes it the target; the broadcast
/// header lets all answer again.
pub proof fn a_header_sets_the_target(digit: char, rows: Seq<RowView>, r: ResponderView)
    requires
        r.car == Some(rows),
        digit != ' ',
        !r.responses.contains_key("ATSH7E"@.push(digit)),
        !r.responses.contains_key("ATSH7DF"@),
    ensures
        ({
            let s = respond(r, "ATSH7E"@.push(digit));
            &&& s.0 == "OK"@
            &&& s.1.target == seq!['7', 'E', digit]
            &&& s.1.only_target
        }),
        ({
            let s = respond(r, "ATSH7DF"@);
            &&& s.0 == "OK"@
            &&& s.1.target == "7DF"@
            &&& !s.1.only_target
        }),
{
    reveal_strlit("ATSH7E");
    reveal_strlit("ATSH7DF");
    let c = "ATSH7E"@.push(digit);
    let b = "ATSH7DF"@;
    lemma_no_spaces(c);
    lemma_no_spaces(b);
    assert(c[5] == 'E' && b[5] == 'D');
    assert(c.take(6) =~= "ATSH7E"@);
    assert(c.skip(4) =~= seq!['7', 'E', digit]);
}

proof fn lemma_no_spaces(s: Seq<char>)
    requires
        forall|i: int| 0 <= i < s.len() ==> #[trigger] s[i] != ' ',
    ensures
        without_spaces(s) == s,
    decreases s.len(),
{
    if s.len() > 0 {
        let head = s.drop_last();
        assert forall|i: int| 0 <= i < head.len() implies #[trigger] head[i] != ' ' by {
            assert(head[i] == s[i]);
        }
        lemma_no_spaces(head);
        assert(s[s.len() - 1] == s.last());
        assert(head.push(s.last()) =~= s);
    }
}

/// Without recordings the pretend adapter answers a few commands as a real one
/// would, echo first, and acknowledges all others.
pub proof fn what_is_usually_replied(normal: Seq<char>)
    ensures
        usual_reply("ATZ"@) == "ELM327 v1.5"@,
        usual_reply("ATRV"@) == "13.2V"@,
        usual_reply("STBC1"@) == "?"@,
        usual_reply("STBCOF0"@) == "?"@,
        usual_reply("010C"@) == "41 0C 1A F8"@,
        usual_reply("010D"@) == "41 0D 00"@,
        usual_reply("0105"@) == "41 05 7B"@,
        usual_reply("0902"@) == "49 02 01 32 46 30 35 55 57 4A 46 00 00 00 00 00"@,
        usual_reply(normal) == "OK"@ || normal == "ATZ"@ || normal == "ATRV"@ || normal == "STBC1"@
            || normal == "STBCOF0"@ || normal == "010C"@ || normal == "010D"@ || normal == "0105"@
            || normal == "0902"@,
{
    reveal_strlit("ATZ");
    reveal_strlit("ATRV");
    reveal_strlit("STBC1");
    reveal_strlit("STBCOF0");
    reveal_strlit("010C");
    reveal_strlit("010D");
    reveal_strlit("0105");
    reveal_strlit("0902");
    assert("ATZ"@.len() == 3 && "ATRV"@.len() == 4 && "STBC1"@.len() == 5 && "STBCOF0"@.len() == 7);
    assert("010C"@[3] == 'C' && "010D"@[3] == 'D' && "0105"@[3] == '5' && "0902"@[1] == '9'
        && "ATRV"@[0] == 'A' && "0902"@[3] == '2' && "010C"@.len() == 4 && "010D"@.len() == 4
        && "0105"@.len() == 4 && "0902"@.len() == 4);
    assert("ATRV"@[3] == 'V');
}

} // verus!
