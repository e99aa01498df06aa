//! The mapping file that configures a simulation of a three-level memory hierarchy.
//!
//! Each line that begins with one of the keys below sets or extends one item; words are
//! separated by white space and counted from zero; every other line is ignored.
//!
//! | key                 | effect                                                          |
//! |---------------------|-----------------------------------------------------------------|
//! | `bandwidth A B`     | word 3 is the bandwidth from level A to level B                 |
//! | `throughput N`      | word 2 is the throughput of the compute unit of level N         |
//! | `initialize N`      | words 2 and 3: a tensor and its size, held by level N at start  |
//! | `memory A B`        | words 3 and 4: a tensor and its size, moved from level A to B   |
//! | `compute N`         | word 3 is the operation count of a kernel of level N            |
//!
//! The level pairs are `2 1`, `1 2`, `2 3`, `3 2`; levels are `1`, `2`, `3` (compute `1`, `2`, `3`).
//! A line with a key but a missing word, or a count that is not an unsigned number, makes the file
//! invalid, and so does a level whose incoming element count passes `usize::MAX`. Bandwidths and
//! throughputs not given stay at 999999.
use vstd::prelude::*;
use crate::text::chars_of;
use crate::text::has_prefix;
use crate::text::line_scan;
use crate::text::newline_pieces;
use crate::text::parse_usize;
use crate::text::read_usize;
use crate::text::split_words;
use crate::text::starts_with;
use crate::text::words;
use crate::text::string_from_chars;

verus! {

/// The value bandwidths and throughputs have until the file sets them.
pub const UNSET: usize = 999999;

/// A configuration as a mathematical value; tensors are `(name, size)` pairs.
#[verifier::ext_equal]
pub struct ConfigModel {
    pub l2_to_l1_bw: usize,
    pub l1_to_l2_bw: usize,
    pub l2_to_l3_bw: usize,
    pub l3_to_l2_bw: usize,
    pub l1_throughput: usize,
    pub l2_throughput: usize,
    pub l3_throughput: usize,
    pub l1_initialize_tensor: Seq<(Seq<char>, usize)>,
    pub l2_initialize_tensor: Seq<(Seq<char>, usize)>,
    pub l3_initialize_tensor: Seq<(Seq<char>, usize)>,
    pub l3_to_l2_tensor: Seq<(Seq<char>, usize)>,
    pub l2_to_l3_tensor: Seq<(Seq<char>, usize)>,
    pub l2_to_l1_tensor: Seq<(Seq<char>, usize)>,
    pub l1_to_l2_tensor: Seq<(Seq<char>, usize)>,
    pub l1_kernel: Seq<usize>,
    pub l2_kernel: Seq<usize>,
    pub l3_kernel: Seq<usize>,
    pub l3_to_l2_receiver_counter: usize,
    pub l2_to_l3_receiver_counter: usize,
    pub l2_to_l1_receiver_counter: usize,
    pub l1_to_l2_receiver_counter: usize,
}

/// The configuration of a simulation, as read from a mapping file.
pub struct SimConfig {
    pub l2_to_l1_bw: usize,
    pub l1_to_l2_bw: usize,
    pub l2_to_l3_bw: usize,
    pub l3_to_l2_bw: usize,
    pub l1_throughput: usize,
    pub l2_throughput: usize,
    pub l3_throughput: usize,
    pub l1_initialize_tensor: Vec<(String, usize)>,
    pub l2_initialize_tensor: Vec<(String, usize)>,
    pub l3_initialize_tensor: Vec<(String, usize)>,
    pub l3_to_l2_tensor: Vec<(String, usize)>,
    pub l2_to_l3_tensor: Vec<(String, usize)>,
    pub l2_to_l1_tensor: Vec<(String, usize)>,
    pub l1_to_l2_tensor: Vec<(String, usize)>,
    pub l1_kernel: Vec<usize>,
    pub l2_kernel: Vec<usize>,
    pub l3_kernel: Vec<usize>,
    pub l3_to_l2_receiver_counter: usize,
    pub l2_to_l3_receiver_counter: usize,
    pub l2_to_l1_receiver_counter: usize,
    pub l1_to_l2_receiver_counter: usize,
}

/// A list of tensors as a mathematical value.
pub open spec fn tensors_view(v: Seq<(String, usize)>) -> Seq<(Seq<char>, usize)> {
    v.map_values(|e: (String, usize)| (e.0@, e.1))
}

impl View for SimConfig {
    type V = ConfigModel;

    open spec fn view(&self) -> ConfigModel {
        ConfigModel {
            l2_to_l1_bw: self.l2_to_l1_bw,
            l1_to_l2_bw: self.l1_to_l2_bw,
            l2_to_l3_bw: self.l2_to_l3_bw,
            l3_to_l2_bw: self.l3_to_l2_bw,
            l1_throughput: self.l1_throughput,
            l2_throughput: self.l2_throughput,
            l3_throughput: self.l3_throughput,
            l1_initialize_tensor: tensors_view(self.l1_initialize_tensor@),
            l2_initialize_tensor: tensors_view(self.l2_initialize_tensor@),
            l3_initialize_tensor: tensors_view(self.l3_initialize_tensor@),
            l3_to_l2_tensor: tensors_view(self.l3_to_l2_tensor@),
            l2_to_l3_tensor: tensors_view(self.l2_to_l3_tensor@),
            l2_to_l1_tensor: tensors_view(self.l2_to_l1_tensor@),
            l1_to_l2_tensor: tensors_view(self.l1_to_l2_tensor@),
            l1_kernel: self.l1_kernel@,
            l2_kernel: self.l2_kernel@,
            l3_kernel: self.l3_kernel@,
            l3_to_l2_receiver_counter: self.l3_to_l2_receiver_counter,
            l2_to_l3_receiver_counter: self.l2_to_l3_receiver_counter,
            l2_to_l1_receiver_counter: self.l2_to_l1_receiver_counter,
            l1_to_l2_receiver_counter: self.l1_to_l2_receiver_counter,
        }
    }
}

/// The configuration before any line is read.
pub open spec fn initial_config() -> ConfigModel {
    ConfigModel {
        l2_to_l1_bw: UNSET,
        l1_to_l2_bw: UNSET,
        l2_to_l3_bw: UNSET,
        l3_to_l2_bw: UNSET,
        l1_throughput: UNSET,
        l2_throughput: UNSET,
        l3_throughput: UNSET,
        l1_initialize_tensor: Seq::empty(),
        l2_initialize_tensor: Seq::empty(),
        l3_initialize_tensor: Seq::empty(),
        l3_to_l2_tensor: Seq::empty(),
        l2_to_l3_tensor: Seq::empty(),
        l2_to_l1_tensor: Seq::empty(),
        l1_to_l2_tensor: Seq::empty(),
        l1_kernel: Seq::empty(),
        l2_kernel: Seq::empty(),
        l3_kernel: Seq::empty(),
        l3_to_l2_receiver_counter: 0,
        l2_to_l3_receiver_counter: 0,
        l2_to_l1_receiver_counter: 0,
        l1_to_l2_receiver_counter: 0,
    }
}

/// Word `i` read as a number, when there is such a word and it reads as one.
pub open spec fn number_at(ws: Seq<Seq<char>>, i: int) -> Option<usize> {
    if 0 <= i < ws.len() {
        parse_usize(ws[i])
    } else {
        None
    }
}

/// The tensor named by word `i` whose size is word `i + 1`.
pub open spec fn tensor_at(ws: Seq<Seq<char>>, i: int) -> Option<(Seq<char>, usize)> {
    match number_at(ws, i + 1) {
        Some(n) => Some((ws[i], n)),
        None => None,
    }
}

/// A move of a tensor into a level: the tensor of words 3 and 4 joins the moves, and the level's
/// incoming element count grows by its size.
pub open spec fn moved(list: Seq<(Seq<char>, usize)>, counter: usize, ws: Seq<Seq<char>>) -> Option<(Seq<(Seq<char>, usize)>, usize)> {
    match tensor_at(ws, 3) {
        Some(t) => if counter + t.1 <= usize::MAX {
            Some((list.push(t), (counter + t.1) as usize))
        } else {
            None
        },
        None => None,
    }
}

/// The configuration once `line` is read (see the module documentation).
pub open spec fn apply_line(c: ConfigModel, line: Seq<char>) -> Option<ConfigModel> {
    let ws = words(line);
    if has_prefix(line, "bandwidth 2 1"@) {
        match number_at(ws, 3) { Some(n) => Some(ConfigModel { l2_to_l1_bw: n, ..c }), None => None }
    } else if has_prefix(line, "bandwidth 1 2"@) {
        match number_at(ws, 3) { Some(n) => Some(ConfigModel { l1_to_l2_bw: n, ..c }), None => None }
    } else if has_prefix(line, "bandwidth 2 3"@) {
        match number_at(ws, 3) { Some(n) => Some(ConfigModel { l2_to_l3_bw: n, ..c }), None => None }
    } else if has_prefix(line, "bandwidth 3 2"@) {
        match number_at(ws, 3) { Some(n) => Some(ConfigModel { l3_to_l2_bw: n, ..c }), None => None }
    } else if has_prefix(line, "throughput 1"@) {
        match number_at(ws, 2) { Some(n) => Some(ConfigModel { l1_throughput: n, ..c }), None => None }
    } else if has_prefix(line, "throughput 2"@) {
        match number_at(ws, 2) { Some(n) => Some(ConfigModel { l2_throughput: n, ..c }), None => None }
    } else if has_prefix(line, "throughput 3"@) {
        match number_at(ws, 2) { Some(n) => Some(ConfigModel { l3_throughput: n, ..c }), None => None }
    } else if has_prefix(line, "initialize 1"@) {
        match tensor_at(ws, 2) {
            Some(t) => Some(ConfigModel { l1_initialize_tensor: c.l1_initialize_tensor.push(t), ..c }),
            None => None,
        }
    } else if has_prefix(line, "initialize 2"@) {
        match tensor_at(ws, 2) {
            Some(t) => Some(ConfigModel { l2_initialize_tensor: c.l2_initialize_tensor.push(t), ..c }),
            None => None,
        }
    } else if has_prefix(line, "initialize 3"@) {
        match tensor_at(ws, 2) {
            Some(t) => Some(ConfigModel { l3_initialize_tensor: c.l3_initialize_tensor.push(t), ..c }),
            None => None,
        }
    } else if has_prefix(line, "memory 3 2"@) {
        match moved(c.l3_to_l2_tensor, c.l3_to_l2_receiver_counter, ws) {
            Some(m) => Some(ConfigModel { l3_to_l2_tensor: m.0, l3_to_l2_receiver_counter: m.1, ..c }),
            None => None,
        }
    } else if has_prefix(line, "memory 2 3"@) {
        match moved(c.l2_to_l3_tensor, c.l2_to_l3_receiver_counter, ws) {
            Some(m) => Some(ConfigModel { l2_to_l3_tensor: m.0, l2_to_l3_receiver_counter: m.1, ..c }),
            None => None,
        }
    } else if has_prefix(line, "memory 2 1"@) {
        match moved(c.l2_to_l1_tensor, c.l2_to_l1_receiver_counter, ws) {
            Some(m) => Some(ConfigModel { l2_to_l1_tensor: m.0, l2_to_l1_receiver_counter: m.1, ..c }),
            None => None,
        }
    } else if has_prefix(line, "memory 1 2"@) {
        match moved(c.l1_to_l2_tensor, c.l1_to_l2_receiver_counter, ws) {
            Some(m) => Some(ConfigModel { l1_to_l2_tensor: m.0, l1_to_l2_receiver_counter: m.1, ..c }),
            None => None,
        }
    } else if has_prefix(line, "compute 1"@) {
        match number_at(ws, 3) { Some(n) => Some(ConfigModel { l1_kernel: c.l1_kernel.push(n), ..c }), None => None }
    } else if has_prefix(line, "compute 2"@) {
        match number_at(ws, 3) { Some(n) => Some(ConfigModel { l2_kernel: c.l2_kernel.push(n), ..c }), None => None }
    } else if has_prefix(line, "compute 3"@) {
        match number_at(ws, 3) { Some(n) => Some(ConfigModel { l3_kernel: c.l3_kernel.push(n), ..c }), None => None }
    } else {
        Some(c)
    }
}

/// The configuration once the lines `ls` are read in order; `None` once a line is invalid.
pub open spec fn apply_lines(ls: Seq<Seq<char>>) -> Option<ConfigModel>
    decreases ls.len(),
{
    if ls.len() == 0 {
        Some(initial_config())
    } else {
        match apply_lines(ls.drop_last()) {
            Some(c) => apply_line(c, ls.last()),
            None => None,
        }
    }
}

/// The configuration a mapping file describes, `None` when the file is invalid.
pub open spec fn spec_parse_config(text: Seq<char>) -> Option<ConfigModel> {
    apply_lines(newline_pieces(text))
}


fn word_number(ws: &Vec<Vec<char>>, i: usize) -> (r: Option<usize>)
    ensures
        r == number_at(ws.deep_view(), i as int),
{
    if i < ws.len() {
        assert(ws.deep_view()[i as int] =~= ws@[i as int]@);
        read_usize(&ws[i])
    } else {
        None
    }
}

fn word_tensor(ws: &Vec<Vec<char>>, i: usize) -> (r: Option<(String, usize)>)
    requires
        i < usize::MAX,
    ensures
        match r {
            Some(t) => tensor_at(ws.deep_view(), i as int) == Some((t.0@, t.1)),
            None => tensor_at(ws.deep_view(), i as int) is None,
        },
{
    match word_number(ws, i + 1) {
        Some(n) => {
            assert(ws.deep_view()[i as int] =~= ws@[i as int]@);
            Some((string_from_chars(&ws[i]), n))
        },
        None => None,
    }
}

proof fn lemma_tensors_push(v: Seq<(String, usize)>, t: (String, usize))
    ensures
        tensors_view(v.push(t)) == tensors_view(v).push((t.0@, t.1)),
{
    assert(tensors_view(v.push(t)) =~= tensors_view(v).push((t.0@, t.1)));
}

fn apply_move(list: &mut Vec<(String, usize)>, counter: &mut usize, ws: &Vec<Vec<char>>) -> (ok: bool)
    ensures
        match moved(tensors_view(old(list)@), *old(counter), ws.deep_view()) {
            Some(m) => ok && tensors_view(final(list)@) == m.0 && *final(counter) == m.1,
            None => !ok && final(list)@ == old(list)@ && *final(counter) == *old(counter),
        },
{
    match word_tensor(ws, 3) {
        Some(t) => {
            if t.1 > usize::MAX - *counter {
                return false;
            }
            *counter = *counter + t.1;
            proof {
                lemma_tensors_push(list@, t);
            }
            list.push(t);
            true
        },
        None => false,
    }
}

fn push_tensor(list: &mut Vec<(String, usize)>, ws: &Vec<Vec<char>>) -> (ok: bool)
    ensures
        match tensor_at(ws.deep_view(), 2) {
            Some(t) => ok && tensors_view(final(list)@) == tensors_view(old(list)@).push(t),
            None => !ok && final(list)@ == old(list)@,
        },
{
    match word_tensor(ws, 2) {
        Some(t) => {
            proof {
                lemma_tensors_push(list@, t);
            }
            list.push(t);
            true
        },
        None => false,
    }
}

fn set_number(field: &mut usize, ws: &Vec<Vec<char>>, i: usize) -> (ok: bool)
    ensures
        match number_at(ws.deep_view(), i as int) {
            Some(n) => ok && *final(field) == n,
            None => !ok && *final(field) == *old(field),
        },
{
    match word_number(ws, i) {
        Some(n) => {
            *field = n;
            true
        },
        None => false,
    }
}

fn push_number(list: &mut Vec<usize>, ws: &Vec<Vec<char>>) -> (ok: bool)
    ensures
        match number_at(ws.deep_view(), 3) {
            Some(n) => ok && final(list)@ == old(list)@.push(n),
            None => !ok && final(list)@ == old(list)@,
        },
{
    match word_number(ws, 3) {
        Some(n) => {
            list.push(n);
            true
        },
        None => false,
    }
}

impl SimConfig {
    /// The configuration before any line is read (see [`initial_config`]).
    pub fn initial() -> (c: SimConfig)
        ensures
            c@ == initial_config(),
    {
        let c = SimConfig {
            l2_to_l1_bw: UNSET,
            l1_to_l2_bw: UNSET,
            l2_to_l3_bw: UNSET,
            l3_to_l2_bw: UNSET,
            l1_throughput: UNSET,
            l2_throughput: UNSET,
            l3_throughput: UNSET,
            l1_initialize_tensor: Vec::new(),
            l2_initialize_tensor: Vec::new(),
            l3_initialize_tensor: Vec::new(),
            l3_to_l2_tensor: Vec::new(),
            l2_to_l3_tensor: Vec::new(),
            l2_to_l1_tensor: Vec::new(),
            l1_to_l2_tensor: Vec::new(),
            l1_kernel: Vec::new(),
            l2_kernel: Vec::new(),
            l3_kernel: Vec::new(),
            l3_to_l2_receiver_counter: 0,
            l2_to_l3_receiver_counter: 0,
            l2_to_l1_receiver_counter: 0,
            l1_to_l2_receiver_counter: 0,
        };
        assert(c@ =~= initial_config());
        c
    }

    /// Reads one line of a mapping file into the configuration (see [`apply_line`]); on an
    /// invalid line answers `false`, and the configuration is then of no further use.
    pub fn apply_line(&mut self, line: &Vec<char>) -> (ok: bool)
        ensures
            ok ==> apply_line(old(self)@, line@) == Some(final(self)@),
            !ok ==> apply_line(old(self)@, line@) is None,
    {
        let ws = split_words(line);
        if starts_with(line, &chars_of("bandwidth 2 1")) {
            set_number(&mut self.l2_to_l1_bw, &ws, 3)
        } else if starts_with(line, &chars_of("bandwidth 1 2")) {
            set_number(&mut self.l1_to_l2_bw, &ws, 3)
        } else if starts_with(line, &chars_of("bandwidth 2 3")) {
            set_number(&mut self.l2_to_l3_bw, &ws, 3)
        } else if starts_with(line, &chars_of("bandwidth 3 2")) {
            set_number(&mut self.l3_to_l2_bw, &ws, 3)
        } else if starts_with(line, &chars_of("throughput 1")) {
            set_number(&mut self.l1_throughput, &ws, 2)
        } else if starts_with(line, &chars_of("throughput 2")) {
            set_number(&mut self.l2_throughput, &ws, 2)
        } else if starts_with(line, &chars_of("throughput 3")) {
            set_number(&mut self.l3_throughput, &ws, 2)
        } else if starts_with(line, &chars_of("initialize 1")) {
            push_tensor(&mut self.l1_initialize_tensor, &ws)
        } else if starts_with(line, &chars_of("initialize 2")) {
            push_tensor(&mut self.l2_initialize_tensor, &ws)
        } else if starts_with(line, &chars_of("initialize 3")) {
            push_tensor(&mut self.l3_initialize_tensor, &ws)
        } else if starts_with(line, &chars_of("memory 3 2")) {
            apply_move(&mut self.l3_to_l2_tensor, &mut self.l3_to_l2_receiver_counter, &ws)
        } else if starts_with(line, &chars_of("memory 2 3")) {
            apply_move(&mut self.l2_to_l3_tensor, &mut self.l2_to_l3_receiver_counter, &ws)
        } else if starts_with(line, &chars_of("memory 2 1")) {
            apply_move(&mut self.l2_to_l1_tensor, &mut self.l2_to_l1_receiver_counter, &ws)
        } else if starts_with(line, &chars_of("memory 1 2")) {
            apply_move(&mut self.l1_to_l2_tensor, &mut self.l1_to_l2_receiver_counter, &ws)
        } else if starts_with(line, &chars_of("compute 1")) {
            push_number(&mut self.l1_kernel, &ws)
        } else if starts_with(line, &chars_of("compute 2")) {
            push_number(&mut self.l2_kernel, &ws)
        } else if starts_with(line, &chars_of("compute 3")) {
            push_number(&mut self.l3_kernel, &ws)
        } else {
            true
        }
    }
}

/// Reads a mapping file (see [`spec_parse_config`]); `None` when a line is invalid.
pub fn parse_config(text: &str) -> (r: Option<SimConfig>)
    ensures
        match r {
            Some(c) => spec_parse_config(text@) == Some(c@),
            None => spec_parse_config(text@) is None,
        },
{
    let chars = chars_of(text);
    let mut cfg = SimConfig::initial();
    let mut ok = true;
    let mut line: Vec<char> = Vec::new();
    let mut i: usize = 0;
    while i < chars.len()
        invariant
            i <= chars@.len(),
            chars@ == text@,
            line@ == line_scan(chars@.take(i as int)).1,
            ok ==> apply_lines(line_scan(chars@.take(i as int)).0) == Some(cfg@),
            !ok ==> apply_lines(line_scan(chars@.take(i as int)).0) is None,
        decreases chars@.len() - i,
    {
        proof {
            assert(chars@.take(i + 1).drop_last() =~= chars@.take(i as int));
        }
        let c = chars[i];
        if c == '\n' {
            let ghost pieces = line_scan(chars@.take(i as int)).0;
            proof {
                assert(pieces.push(line@).drop_last() =~= pieces);
            }
            if ok {
                ok = cfg.apply_line(&line);
            }
            line = Vec::new();
        } else {
            line.push(c);
        }
        i += 1;
        proof {
            assert(line@ =~= line_scan(chars@.take(i as int)).1);
        }
    }
    proof {
        assert(chars@.take(i as int) =~= chars@);
        let pieces = line_scan(chars@).0;
        assert(pieces.push(line@).drop_last() =~= pieces);
    }
    if ok {
        ok = cfg.apply_line(&line);
    }
    if ok {
        Some(cfg)
    } else {
        None
    }
}


/// Total size of a list of tensors.
pub open spec fn tensor_total(s: Seq<(Seq<char>, usize)>) -> nat
    decreases s.len(),
{
    if s.len() == 0 {
        0
    } else {
        tensor_total(s.drop_last()) + s.last().1 as nat
    }
}

/// Each level's incoming element count is the total size of the tensors moved into it.
pub open spec fn counters_match(c: ConfigModel) -> bool {
    &&& c.l3_to_l2_receiver_counter == tensor_total(c.l3_to_l2_tensor)
    &&& c.l2_to_l3_receiver_counter == tensor_total(c.l2_to_l3_tensor)
    &&& c.l2_to_l1_receiver_counter == tensor_total(c.l2_to_l1_tensor)
    &&& c.l1_to_l2_receiver_counter == tensor_total(c.l1_to_l2_tensor)
}

proof fn lemma_total_push(s: Seq<(Seq<char>, usize)>, t: (Seq<char>, usize))
    ensures
        tensor_total(s.push(t)) == tensor_total(s) + t.1,
{
    assert(s.push(t).drop_last() =~= s);
}

proof fn lemma_apply_lines_counters(ls: Seq<Seq<char>>)
    ensures
        apply_lines(ls) matches Some(c) ==> counters_match(c),
    decreases ls.len(),
{
    if ls.len() > 0 {
        lemma_apply_lines_counters(ls.drop_last());
        if let Some(c) = apply_lines(ls.drop_last()) {
            let ws = words(ls.last());
            if let Some(t) = tensor_at(ws, 3) {
                lemma_total_push(c.l3_to_l2_tensor, t);
                lemma_total_push(c.l2_to_l3_tensor, t);
                lemma_total_push(c.l2_to_l1_tensor, t);
                lemma_total_push(c.l1_to_l2_tensor, t);
            }
        }
    }
}

/// In every configuration a valid mapping file describes, each level's incoming element count
/// (what the level waits for before it reports) is the total size of the tensors moved into it.
pub proof fn law_counters_match_moves(text: Seq<char>)
    ensures
        spec_parse_config(text) matches Some(c) ==> counters_match(c),
{
    lemma_apply_lines_counters(newline_pieces(text));
}

/// The characters that tell the keys apart, as a line that begins with each key has them.
proof fn lemma_key_marks(line: Seq<char>)
    ensures
        has_prefix(line, "bandwidth 2 1"@) ==> line[0] == 'b' && line[10] == '2' && line[12] == '1',
        has_prefix(line, "bandwidth 1 2"@) ==> line[0] == 'b' && line[10] == '1' && line[12] == '2',
        has_prefix(line, "bandwidth 2 3"@) ==> line[0] == 'b' && line[10] == '2' && line[12] == '3',
        has_prefix(line, "bandwidth 3 2"@) ==> line[0] == 'b' && line[10] == '3' && line[12] == '2',
        has_prefix(line, "throughput 1"@) ==> line[0] == 't' && line[11] == '1',
        has_prefix(line, "throughput 2"@) ==> line[0] == 't' && line[11] == '2',
        has_prefix(line, "throughput 3"@) ==> line[0] == 't' && line[11] == '3',
        has_prefix(line, "initialize 1"@) ==> line[0] == 'i' && line[11] == '1',
        has_prefix(line, "initialize 2"@) ==> line[0] == 'i' && line[11] == '2',
        has_prefix(line, "initialize 3"@) ==> line[0] == 'i' && line[11] == '3',
        has_prefix(line, "memory 3 2"@) ==> line[0] == 'm' && line[7] == '3' && line[9] == '2',
        has_prefix(line, "memory 2 3"@) ==> line[0] == 'm' && line[7] == '2' && line[9] == '3',
        has_prefix(line, "memory 2 1"@) ==> line[0] == 'm' && line[7] == '2' && line[9] == '1',
        has_prefix(line, "memory 1 2"@) ==> line[0] == 'm' && line[7] == '1' && line[9] == '2',
        has_prefix(line, "compute 1"@) ==> line[0] == 'c' && line[8] == '1',
        has_prefix(line, "compute 2"@) ==> line[0] == 'c' && line[8] == '2',
        has_prefix(line, "compute 3"@) ==> line[0] == 'c' && line[8] == '3',
{
    reveal_strlit("bandwidth 2 1");
    if has_prefix(line, "bandwidth 2 1"@) {
        assert(line[0] == line.take(13)[0]);
        assert(line[10] == line.take(13)[10]);
        assert(line[12] == line.take(13)[12]);
    }
    reveal_strlit("bandwidth 1 2");
    if has_prefix(line, "bandwidth 1 2"@) {
        assert(line[0] == line.take(13)[0]);
        assert(line[10] == line.take(13)[10]);
        assert(line[12] == line.take(13)[12]);
    }
    reveal_strlit("bandwidth 2 3");
    if has_prefix(line, "bandwidth 2 3"@) {
        assert(line[0] == line.take(13)[0]);
        assert(line[10] == line.take(13)[10]);
        assert(line[12] == line.take(13)[12]);
    }
    reveal_strlit("bandwidth 3 2");
    if has_prefix(line, "bandwidth 3 2"@) {
        assert(line[0] == line.take(13)[0]);
        assert(line[10] == line.take(13)[10]);
        assert(line[12] == line.take(13)[12]);
    }
    reveal_strlit("throughput 1");
    if has_prefix(line, "throughput 1"@) {
        assert(line[0] == line.take(12)[0]);
        assert(line[11] == line.take(12)[11]);
    }
    reveal_strlit("throughput 2");
    if has_prefix(line, "throughput 2"@) {
        assert(line[0] == line.take(12)[0]);
        assert(line[11] == line.take(12)[11]);
    }
    reveal_strlit("throughput 3");
    if has_prefix(line, "throughput 3"@) {
        assert(line[0] == line.take(12)[0]);
        assert(line[11] == line.take(12)[11]);
    }
    reveal_strlit("initialize 1");
    if has_prefix(line, "initialize 1"@) {
        assert(line[0] == line.take(12)[0]);
        assert(line[11] == line.take(12)[11]);
    }
    reveal_strlit("initialize 2");
    if has_prefix(line, "initialize 2"@) {
        assert(line[0] == line.take(12)[0]);
        assert(line[11] == line.take(12)[11]);
    }
    reveal_strlit("initialize 3");
    if has_prefix(line, "initialize 3"@) {
        assert(line[0] == line.take(12)[0]);
        assert(line[11] == line.take(12)[11]);
    }
    reveal_strlit("memory 3 2");
    if has_prefix(line, "memory 3 2"@) {
        assert(line[0] == line.take(10)[0]);
        assert(line[7] == line.take(10)[7]);
        assert(line[9] == line.take(10)[9]);
    }
    reveal_strlit("memory 2 3");
    if has_prefix(line, "memory 2 3"@) {
        assert(line[0] == line.take(10)[0]);
        assert(line[7] == line.take(10)[7]);
        assert(line[9] == line.take(10)[9]);
    }
    reveal_strlit("memory 2 1");
    if has_prefix(line, "memory 2 1"@) {
        assert(line[0] == line.take(10)[0]);
        assert(line[7] == line.take(10)[7]);
        assert(line[9] == line.take(10)[9]);
    }
    reveal_strlit("memory 1 2");
    if has_prefix(line, "memory 1 2"@) {
        assert(line[0] == line.take(10)[0]);
        assert(line[7] == line.take(10)[7]);
        assert(line[9] == line.take(10)[9]);
    }
    reveal_strlit("compute 1");
    if has_prefix(line, "compute 1"@) {
        assert(line[0] == line.take(9)[0]);
        assert(line[8] == line.take(9)[8]);
    }
    reveal_strlit("compute 2");
    if has_prefix(line, "compute 2"@) {
        assert(line[0] == line.take(9)[0]);
        assert(line[8] == line.take(9)[8]);
    }
    reveal_strlit("compute 3");
    if has_prefix(line, "compute 3"@) {
        assert(line[0] == line.take(9)[0]);
        assert(line[8] == line.take(9)[8]);
    }
}

/// The tensors the lines that begin with `key` give, in file order: for each such line, the
/// tensor named by word `i` with the size of word `i + 1`.
pub open spec fn keyed_tensors(ls: Seq<Seq<char>>, key: Seq<char>, i: int) -> Seq<(Seq<char>, usize)>
    decreases ls.len(),
{
    if ls.len() == 0 {
        Seq::empty()
    } else {
        let rest = keyed_tensors(ls.drop_last(), key, i);
        if has_prefix(ls.last(), key) {
            match tensor_at(words(ls.last()), i) {
                Some(t) => rest.push(t),
                None => rest,
            }
        } else {
            rest
        }
    }
}

/// The numbers the lines that begin with `key` give, in file order: word `i` of each such line.
pub open spec fn keyed_numbers(ls: Seq<Seq<char>>, key: Seq<char>, i: int) -> Seq<usize>
    decreases ls.len(),
{
    if ls.len() == 0 {
        Seq::empty()
    } else {
        let rest = keyed_numbers(ls.drop_last(), key, i);
        if has_prefix(ls.last(), key) {
            match number_at(words(ls.last()), i) {
                Some(n) => rest.push(n),
                None => rest,
            }
        } else {
            rest
        }
    }
}

/// Word `i` of the last line that begins with `key` and has that word as a number; [`UNSET`] when
/// there is none.
pub open spec fn last_keyed_number(ls: Seq<Seq<char>>, key: Seq<char>, i: int) -> usize
    decreases ls.len(),
{
    if ls.len() == 0 {
        UNSET
    } else if has_prefix(ls.last(), key) && number_at(words(ls.last()), i) is Some {
        number_at(words(ls.last()), i)->0
    } else {
        last_keyed_number(ls.drop_last(), key, i)
    }
}

proof fn lemma_lists_follow_lines(ls: Seq<Seq<char>>)
    ensures
        apply_lines(ls) matches Some(c) ==> {
            &&& c.l1_initialize_tensor == keyed_tensors(ls, "initialize 1"@, 2)
            &&& c.l2_initialize_tensor == keyed_tensors(ls, "initialize 2"@, 2)
            &&& c.l3_initialize_tensor == keyed_tensors(ls, "initialize 3"@, 2)
            &&& c.l3_to_l2_tensor == keyed_tensors(ls, "memory 3 2"@, 3)
            &&& c.l2_to_l3_tensor == keyed_tensors(ls, "memory 2 3"@, 3)
            &&& c.l2_to_l1_tensor == keyed_tensors(ls, "memory 2 1"@, 3)
            &&& c.l1_to_l2_tensor == keyed_tensors(ls, "memory 1 2"@, 3)
        },
    decreases ls.len(),
{
    if ls.len() > 0 {
        lemma_lists_follow_lines(ls.drop_last());
        lemma_key_marks(ls.last());
    }
}

proof fn lemma_numbers_follow_lines(ls: Seq<Seq<char>>)
    ensures
        apply_lines(ls) matches Some(c) ==> {
            &&& c.l1_kernel == keyed_numbers(ls, "compute 1"@, 3)
            &&& c.l2_kernel == keyed_numbers(ls, "compute 2"@, 3)
            &&& c.l3_kernel == keyed_numbers(ls, "compute 3"@, 3)
            &&& c.l2_to_l1_bw == last_keyed_number(ls, "bandwidth 2 1"@, 3)
            &&& c.l1_to_l2_bw == last_keyed_number(ls, "bandwidth 1 2"@, 3)
            &&& c.l2_to_l3_bw == last_keyed_number(ls, "bandwidth 2 3"@, 3)
            &&& c.l3_to_l2_bw == last_keyed_number(ls, "bandwidth 3 2"@, 3)
            &&& c.l1_throughput == last_keyed_number(ls, "throughput 1"@, 2)
            &&& c.l2_throughput == last_keyed_number(ls, "throughput 2"@, 2)
            &&& c.l3_throughput == last_keyed_number(ls, "throughput 3"@, 2)
        },
    decreases ls.len(),
{
    if ls.len() > 0 {
        lemma_numbers_follow_lines(ls.drop_last());
        lemma_key_marks(ls.last());
    }
}

/// What a valid mapping file configures, item by item, in terms of its lines alone: each
/// level's initial tensors are the tensors of its `initialize` lines and each move list the
/// tensors of its `memory` lines, in file order and each line adding one; each kernel list is the
/// counts of its `compute` lines in file order; and each bandwidth and throughput is the value on
/// the last line that sets it, or [`UNSET`] when no line does.
pub proof fn law_config_follows_lines(text: Seq<char>)
    ensures
        spec_parse_config(text) matches Some(c) ==> {
            let ls = newline_pieces(text);
            &&& c.l1_initialize_tensor == keyed_tensors(ls, "initialize 1"@, 2)
            &&& c.l2_initialize_tensor == keyed_tensors(ls, "initialize 2"@, 2)
            &&& c.l3_initialize_tensor == keyed_tensors(ls, "initialize 3"@, 2)
            &&& c.l3_to_l2_tensor == keyed_tensors(ls, "memory 3 2"@, 3)
            &&& c.l2_to_l3_tensor == keyed_tensors(ls, "memory 2 3"@, 3)
            &&& c.l2_to_l1_tensor == keyed_tensors(ls, "memory 2 1"@, 3)
            &&& c.l1_to_l2_tensor == keyed_tensors(ls, "memory 1 2"@, 3)
            &&& c.l1_kernel == keyed_numbers(ls, "compute 1"@, 3)
            &&& c.l2_kernel == keyed_numbers(ls, "compute 2"@, 3)
            &&& c.l3_kernel == keyed_numbers(ls, "compute 3"@, 3)
            &&& c.l2_to_l1_bw == last_keyed_number(ls, "bandwidth 2 1"@, 3)
            &&& c.l1_to_l2_bw == last_keyed_number(ls, "bandwidth 1 2"@, 3)
            &&& c.l2_to_l3_bw == last_keyed_number(ls, "bandwidth 2 3"@, 3)
            &&& c.l3_to_l2_bw == last_keyed_number(ls, "bandwidth 3 2"@, 3)
            &&& c.l1_throughput == last_keyed_number(ls, "throughput 1"@, 2)
            &&& c.l2_throughput == last_keyed_number(ls, "throughput 2"@, 2)
            &&& c.l3_throughput == last_keyed_number(ls, "throughput 3"@, 2)
        },
{
    lemma_lists_follow_lines(newline_pieces(text));
    lemma_numbers_follow_lines(newline_pieces(text));
}

} // verus!
