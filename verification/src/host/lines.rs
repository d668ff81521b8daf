//! Lines of text about transactions, events, glyphs and rows.

use vstd::prelude::*;

use crate::host::board;
use crate::host::board::Board;
use crate::host::bus_decoder;
use crate::host::bus_decoder::Frame;
use crate::host::decoder as glyph;
use crate::host::decoder::GlyphMatch;
use crate::text;
use crate::text::{push_decimal, push_decimal_padded, push_hex, quote};

verus! {

/// Names of the display controller's commands.
pub open spec fn command_name(cmd: u8) -> Seq<char> {
    match cmd {
        0x00 => "NOP"@,
        0x01 => "SOFT_RESET"@,
        0x04 => "READ_DISPLAY_ID"@,
        0x09 => "READ_DISPLAY_STATUS"@,
        0x10 => "SLEEP_IN"@,
        0x11 => "SLEEP_OUT"@,
        0x12 => "PARTIAL_MODE_ON"@,
        0x13 => "NORMAL_MODE_ON"@,
        0x20 => "INVERSION_OFF"@,
        0x21 => "INVERSION_ON"@,
        0x28 => "DISPLAY_OFF"@,
        0x29 => "DISPLAY_ON"@,
        0x2A => "SET_COLUMN_ADDRESS"@,
        0x2B => "SET_ROW_ADDRESS"@,
        0x2C => "MEMORY_WRITE"@,
        0x2E => "MEMORY_READ"@,
        0x30 => "PARTIAL_AREA"@,
        0x33 => "VERTICAL_SCROLLING"@,
        0x36 => "MEMORY_ACCESS_CONTROL"@,
        0x37 => "VERTICAL_SCROLL_START"@,
        0x38 => "IDLE_MODE_OFF"@,
        0x39 => "IDLE_MODE_ON"@,
        0x3A => "PIXEL_FORMAT_SET"@,
        0x3C => "MEMORY_WRITE_CONTINUE"@,
        0xB0 => "INTERFACE_MODE_CONTROL"@,
        0xB1 => "FRAME_RATE_NORMAL"@,
        0xB4 => "DISPLAY_INVERSION_CONTROL"@,
        0xB6 => "DISPLAY_FUNCTION_CONTROL"@,
        0xB7 => "ENTRY_MODE_SET"@,
        0xC0 => "POWER_CONTROL_1"@,
        0xC1 => "POWER_CONTROL_2"@,
        0xC5 => "VCOM_CONTROL"@,
        0xE0 => "POSITIVE_GAMMA"@,
        0xE1 => "NEGATIVE_GAMMA"@,
        0xF7 => "ADJUST_CONTROL_3"@,
        _ => "?"@,
    }
}

/// The name of a command of the display controller.
pub fn cmd_name(cmd: u8) -> (name: &'static str)
    ensures
        name@ == command_name(cmd),
{
    match cmd {
        0x00 => "NOP",
        0x01 => "SOFT_RESET",
        0x04 => "READ_DISPLAY_ID",
        0x09 => "READ_DISPLAY_STATUS",
        0x10 => "SLEEP_IN",
        0x11 => "SLEEP_OUT",
        0x12 => "PARTIAL_MODE_ON",
        0x13 => "NORMAL_MODE_ON",
        0x20 => "INVERSION_OFF",
        0x21 => "INVERSION_ON",
        0x28 => "DISPLAY_OFF",
        0x29 => "DISPLAY_ON",
        0x2A => "SET_COLUMN_ADDRESS",
        0x2B => "SET_ROW_ADDRESS",
        0x2C => "MEMORY_WRITE",
        0x2E => "MEMORY_READ",
        0x30 => "PARTIAL_AREA",
        0x33 => "VERTICAL_SCROLLING",
        0x36 => "MEMORY_ACCESS_CONTROL",
        0x37 => "VERTICAL_SCROLL_START",
        0x38 => "IDLE_MODE_OFF",
        0x39 => "IDLE_MODE_ON",
        0x3A => "PIXEL_FORMAT_SET",
        0x3C => "MEMORY_WRITE_CONTINUE",
        0xB0 => "INTERFACE_MODE_CONTROL",
        0xB1 => "FRAME_RATE_NORMAL",
        0xB4 => "DISPLAY_INVERSION_CONTROL",
        0xB6 => "DISPLAY_FUNCTION_CONTROL",
        0xB7 => "ENTRY_MODE_SET",
        0xC0 => "POWER_CONTROL_1",
        0xC1 => "POWER_CONTROL_2",
        0xC5 => "VCOM_CONTROL",
        0xE0 => "POSITIVE_GAMMA",
        0xE1 => "NEGATIVE_GAMMA",
        0xF7 => "ADJUST_CONTROL_3",
        _ => "?",
    }
}

/// The first `n` words of a payload, in hexadecimal, each with a space behind it.
pub open spec fn words_text(data: Seq<u16>, n: nat) -> Seq<char>
    decreases n,
{
    if n == 0 {
        Seq::empty()
    } else {
        words_text(data, (n - 1) as nat) + text::padded(
            '0',
            4,
            text::hexadecimal(data[n - 1] as nat),
        ) + " "@
    }
}

/// A transaction in one line: the command and its name, how many words follow,
/// and the first six of them.
pub open spec fn tx_text(t: bus_decoder::Transaction) -> Seq<char> {
    let head = "0x"@ + text::padded('0', 2, text::hexadecimal(t.cmd as nat)) + " "@ + command_name(
        t.cmd,
    );
    let n = t.data.len();
    if n == 0 {
        head
    } else {
        let body = head + " ["@ + text::decimal(n) + "]"@ + " "@ + words_text(
            t.data,
            if n < 6 {
                n
            } else {
                6
            },
        );
        if n > 6 {
            body + "…"@
        } else {
            body
        }
    }
}

/// A transaction in one line.
pub fn format_tx(tx: &Frame) -> (line: String)
    ensures
        line@ == tx_text(tx@),
{
    let mut line: String = "0x".to_owned();
    push_hex(&mut line, 2, tx.cmd as u64);
    line.append(" ");
    line.append(cmd_name(tx.cmd));
    let n: usize = tx.data.len();
    if n > 0 {
        line.append(" [");
        push_decimal(&mut line, n as u64);
        line.append("]");
        line.append(" ");
        let shown: usize = if n < 6 {
            n
        } else {
            6
        };
        let ghost head = line@;
        let mut i: usize = 0;
        assert(head + words_text(tx.data@, 0) =~= head);
        while i < shown
            invariant
                i <= shown <= tx.data.len(),
                line@ == head + words_text(tx.data@, i as nat),
            decreases shown - i,
        {
            push_hex(&mut line, 4, tx.data[i] as u64);
            line.append(" ");
            i += 1;
            assert(line@ =~= head + words_text(tx.data@, i as nat));
        }
        if n > 6 {
            line.append("…");
        }
    }
    line
}

/// Command or data.
pub open spec fn role(is_data: bool) -> Seq<char> {
    if is_data {
        "D"@
    } else {
        "C"@
    }
}

/// A raw sample with the bus word it carries.
pub open spec fn sample_text(rig: Board, sample: u32) -> Seq<char> {
    let (data, is_data) = board::bus_word(rig, sample);
    text::padded('0', 8, text::hexadecimal(sample as nat)) + "("@ + role(is_data) + ":"@
        + text::padded('0', 4, text::hexadecimal(data as nat)) + ")"@
}

/// Samples, each with a space before it.
pub open spec fn samples_text(rig: Board, samples: Seq<u32>) -> Seq<char>
    decreases samples.len(),
{
    if samples.len() == 0 {
        Seq::empty()
    } else {
        samples_text(rig, samples.drop_last()) + " "@ + sample_text(rig, samples.last())
    }
}

/// Appends a raw sample with the bus word it carries.
fn push_sample(line: &mut String, rig: Board, sample: u32)
    ensures
        final(line)@ == old(line)@ + sample_text(rig, sample),
{
    let (data, is_data) = rig.permute(sample);
    push_hex(line, 8, sample as u64);
    line.append("(");
    line.append(
        if is_data {
            "D"
        } else {
            "C"
        },
    );
    line.append(":");
    push_hex(line, 4, data as u64);
    line.append(")");
    assert(line@ =~= old(line)@ + sample_text(rig, sample));
}

/// The line about a BLOCK.
pub open spec fn block_line(rig: Board, samples: Seq<u32>) -> Seq<char> {
    "BLOCK n="@ + text::padded(' ', 3, text::decimal(samples.len())) + samples_text(rig, samples)
}

pub fn format_block(rig: Board, samples: &Vec<u32>) -> (line: String)
    ensures
        line@ == block_line(rig, samples@),
{
    let mut line: String = "BLOCK n=".to_owned();
    push_decimal_padded(&mut line, ' ', 3, samples.len() as u64);
    let ghost head = line@;
    let mut i: usize = 0;
    assert(head + samples_text(rig, samples@.take(0)) =~= head);
    while i < samples.len()
        invariant
            i <= samples.len(),
            line@ == head + samples_text(rig, samples@.take(i as int)),
        decreases samples.len() - i,
    {
        line.append(" ");
        push_sample(&mut line, rig, samples[i]);
        assert(samples@.take(i + 1).drop_last() =~= samples@.take(i as int));
        i += 1;
        assert(line@ =~= head + samples_text(rig, samples@.take(i as int)));
    }
    assert(samples@.take(i as int) =~= samples@);
    line
}

/// The line about a RUN.
pub open spec fn run_line(rig: Board, n: u16, sample: u32) -> Seq<char> {
    "RUN   n="@ + text::padded(' ', 5, text::decimal(n as nat)) + " "@ + sample_text(rig, sample)
}

pub fn format_run(rig: Board, n: u16, sample: u32) -> (line: String)
    ensures
        line@ == run_line(rig, n, sample),
{
    let mut line: String = "RUN   n=".to_owned();
    push_decimal_padded(&mut line, ' ', 5, n as u64);
    line.append(" ");
    push_sample(&mut line, rig, sample);
    line
}

/// The sum of run lengths.
pub open spec fn total_len(run_lens: Seq<u8>) -> nat
    decreases run_lens.len(),
{
    if run_lens.len() == 0 {
        0
    } else {
        total_len(run_lens.drop_last()) + run_lens.last() as nat
    }
}

/// Numbers with commas between them.
pub open spec fn joined(lens: Seq<u8>) -> Seq<char>
    decreases lens.len(),
{
    if lens.len() == 0 {
        Seq::empty()
    } else if lens.len() == 1 {
        text::decimal(lens[0] as nat)
    } else {
        joined(lens.drop_last()) + ", "@ + text::decimal(lens.last() as nat)
    }
}

/// The line about a REPEAT2. The total is kept in 64 bits.
pub open spec fn repeat2_line(rig: Board, val_a: u32, val_b: u32, run_lens: Seq<u8>) -> Seq<
    char,
> {
    "RPT2  runs="@ + text::padded(' ', 3, text::decimal(run_lens.len())) + " total="@
        + text::padded(' ', 5, text::decimal(total_len(run_lens) % 0x1_0000_0000_0000_0000)) + "  A="@ + sample_text(
        rig,
        val_a,
    ) + "  B="@ + sample_text(rig, val_b) + "  lens=["@ + joined(run_lens) + "]"@
}

fn sum_lens(run_lens: &Vec<u8>) -> (total: u64)
    ensures
        total == total_len(run_lens@) % 0x1_0000_0000_0000_0000,
{
    let mut total: u64 = 0;
    let mut i: usize = 0;
    while i < run_lens.len()
        invariant
            i <= run_lens.len(),
            total == total_len(run_lens@.take(i as int)) % 0x1_0000_0000_0000_0000,
        decreases run_lens.len() - i,
    {
        assert(run_lens@.take(i + 1).drop_last() =~= run_lens@.take(i as int));
        total = total.wrapping_add(run_lens[i] as u64);
        i += 1;
    }
    assert(run_lens@.take(i as int) =~= run_lens@);
    total
}

pub fn format_repeat2(rig: Board, val_a: u32, val_b: u32, run_lens: &Vec<u8>) -> (line: String)
    ensures
        line@ == repeat2_line(rig, val_a, val_b, run_lens@),
{
    let mut line: String = "RPT2  runs=".to_owned();
    push_decimal_padded(&mut line, ' ', 3, run_lens.len() as u64);
    line.append(" total=");
    push_decimal_padded(&mut line, ' ', 5, sum_lens(run_lens));
    line.append("  A=");
    push_sample(&mut line, rig, val_a);
    line.append("  B=");
    push_sample(&mut line, rig, val_b);
    line.append("  lens=[");
    let ghost head = line@;
    let mut i: usize = 0;
    assert(head + joined(run_lens@.take(0)) =~= head);
    while i < run_lens.len()
        invariant
            i <= run_lens.len(),
            line@ == head + joined(run_lens@.take(i as int)),
        decreases run_lens.len() - i,
    {
        if i > 0 {
            line.append(", ");
        }
        push_decimal(&mut line, run_lens[i] as u64);
        assert(run_lens@.take(i + 1).drop_last() =~= run_lens@.take(i as int));
        i += 1;
        assert(line@ =~= head + joined(run_lens@.take(i as int)));
    }
    assert(run_lens@.take(i as int) =~= run_lens@);
    line.append("]");
    line
}

/// The line about a TICK.
pub open spec fn tick_line(t_us: u32, dt_us: u16, n_drained: u16, n_pending: u16, bytes_out: u32)
    -> Seq<char> {
    "TICK  t="@ + text::padded(' ', 10, text::decimal(t_us as nat)) + "us dt="@ + text::padded(
        ' ',
        5,
        text::decimal(dt_us as nat),
    ) + "us drained="@ + text::padded(' ', 5, text::decimal(n_drained as nat)) + " pending="@
        + text::padded(' ', 5, text::decimal(n_pending as nat)) + " bytes_out="@ + text::padded(
        ' ',
        10,
        text::decimal(bytes_out as nat),
    )
}

pub fn format_tick(t_us: u32, dt_us: u16, n_drained: u16, n_pending: u16, bytes_out: u32) -> (line:
    String)
    ensures
        line@ == tick_line(t_us, dt_us, n_drained, n_pending, bytes_out),
{
    let mut line: String = "TICK  t=".to_owned();
    push_decimal_padded(&mut line, ' ', 10, t_us as u64);
    line.append("us dt=");
    push_decimal_padded(&mut line, ' ', 5, dt_us as u64);
    line.append("us drained=");
    push_decimal_padded(&mut line, ' ', 5, n_drained as u64);
    line.append(" pending=");
    push_decimal_padded(&mut line, ' ', 5, n_pending as u64);
    line.append(" bytes_out=");
    push_decimal_padded(&mut line, ' ', 10, bytes_out as u64);
    line
}

/// The line about a glyph.
pub open spec fn glyph_line(g: glyph::Glyph) -> Seq<char> {
    "→ "@ + text::decimal(g.w as nat) + "x"@ + text::decimal(g.h as nat) + "@("@ + text::padded(
        '0',
        3,
        text::decimal(g.disp_x as nat),
    ) + ","@ + text::padded('0', 3, text::decimal(g.disp_y as nat)) + ") = "@ + text::quoted(g.label)
}

pub fn format_glyph(g: &GlyphMatch) -> (line: String)
    ensures
        line@ == glyph_line(g@),
{
    let mut line: String = "→ ".to_owned();
    push_decimal(&mut line, g.w as u64);
    line.append("x");
    push_decimal(&mut line, g.h as u64);
    line.append("@(");
    push_decimal_padded(&mut line, '0', 3, g.disp_x as u64);
    line.append(",");
    push_decimal_padded(&mut line, '0', 3, g.disp_y as u64);
    line.append(") = ");
    line.append(quote(g.label).as_str());
    line
}

/// The line about lost samples.
pub open spec fn overrun_line(dropped: u32) -> Seq<char> {
    "(firmware lost "@ + text::decimal(dropped as nat) + " WR edges)"@
}

pub fn format_overrun(dropped: u32) -> (line: String)
    ensures
        line@ == overrun_line(dropped),
{
    let mut line: String = "(firmware lost ".to_owned();
    push_decimal(&mut line, dropped as u64);
    line.append(" WR edges)");
    line
}

/// The line about a row that changed.
pub open spec fn row_line(name: Seq<char>, value: Seq<char>) -> Seq<char> {
    "= "@ + name + ": "@ + text::quoted(value)
}

pub fn format_row(name: &str, value: &str) -> (line: String)
    ensures
        line@ == row_line(name@, value@),
{
    let mut line: String = "= ".to_owned();
    line.append(name);
    line.append(": ");
    line.append(quote(value).as_str());
    line
}

/// The commands that have a name, and that every other one shows as a question mark.
pub proof fn law_other_commands_have_no_name(cmd: u8)
    ensures
        command_name(cmd) == seq!['?'] <==> !(cmd == 0x00 || cmd == 0x01 || cmd == 0x04 || cmd
            == 0x09 || 0x10 <= cmd <= 0x13 || cmd == 0x20 || cmd == 0x21 || 0x28 <= cmd <= 0x2c
            || cmd == 0x2e || cmd == 0x30 || cmd == 0x33 || 0x36 <= cmd <= 0x3a || cmd == 0x3c
            || cmd == 0xb0 || cmd == 0xb1 || cmd == 0xb4 || cmd == 0xb6 || cmd == 0xb7 || cmd
            == 0xc0 || cmd == 0xc1 || cmd == 0xc5 || cmd == 0xe0 || cmd == 0xe1 || cmd == 0xf7),
{
    reveal_strlit("NOP");
    reveal_strlit("SOFT_RESET");
    reveal_strlit("READ_DISPLAY_ID");
    reveal_strlit("READ_DISPLAY_STATUS");
    reveal_strlit("SLEEP_IN");
    reveal_strlit("SLEEP_OUT");
    reveal_strlit("PARTIAL_MODE_ON");
    reveal_strlit("NORMAL_MODE_ON");
    reveal_strlit("INVERSION_OFF");
    reveal_strlit("INVERSION_ON");
    reveal_strlit("DISPLAY_OFF");
    reveal_strlit("DISPLAY_ON");
    reveal_strlit("SET_COLUMN_ADDRESS");
    reveal_strlit("SET_ROW_ADDRESS");
    reveal_strlit("MEMORY_WRITE");
    reveal_strlit("MEMORY_READ");
    reveal_strlit("PARTIAL_AREA");
    reveal_strlit("VERTICAL_SCROLLING");
    reveal_strlit("MEMORY_ACCESS_CONTROL");
    reveal_strlit("VERTICAL_SCROLL_START");
    reveal_strlit("IDLE_MODE_OFF");
    reveal_strlit("IDLE_MODE_ON");
    reveal_strlit("PIXEL_FORMAT_SET");
    reveal_strlit("MEMORY_WRITE_CONTINUE");
    reveal_strlit("INTERFACE_MODE_CONTROL");
    reveal_strlit("FRAME_RATE_NORMAL");
    reveal_strlit("DISPLAY_INVERSION_CONTROL");
    reveal_strlit("DISPLAY_FUNCTION_CONTROL");
    reveal_strlit("ENTRY_MODE_SET");
    reveal_strlit("POWER_CONTROL_1");
    reveal_strlit("POWER_CONTROL_2");
    reveal_strlit("VCOM_CONTROL");
    reveal_strlit("POSITIVE_GAMMA");
    reveal_strlit("NEGATIVE_GAMMA");
    reveal_strlit("ADJUST_CONTROL_3");
    reveal_strlit("?");
    let n = command_name(cmd);
    if n.len() == 1 {
        assert(n =~= seq!['?']);
    }
}

proof fn lemma_hex_width(n: nat, width: nat)
    requires
        width == 2 && n < 256 || width == 4 && n < 65536 || width == 8 && n < 0x1_0000_0000,
    ensures
        text::padded('0', width, text::hexadecimal(n)).len() == width,
        text::writes(16, text::padded('0', width, text::hexadecimal(n)), n as int),
{
    text::law_numbers_are_written(n, width);
    reveal_with_fuel(vstd::arithmetic::power::pow, 9);
    assert(vstd::arithmetic::power::pow(16, 2) == 256);
    assert(vstd::arithmetic::power::pow(16, 4) == 65536);
    assert(vstd::arithmetic::power::pow(16, 8) == 0x1_0000_0000);
    text::lemma_hex_plain(n, width);
}

/// The words of a payload stand in order, in four hexadecimal digits each, with a
/// space behind every one.
pub proof fn law_every_word_is_shown(data: Seq<u16>, n: nat, i: int)
    requires
        0 <= i < n <= data.len(),
    ensures
        words_text(data, n).len() == 5 * n,
        text::writes(16, words_text(data, n).subrange(5 * i, 5 * i + 4), data[i] as int),
        words_text(data, n)[5 * i + 4] == ' ',
    decreases n,
{
    reveal_strlit(" ");
    let last = text::padded('0', 4, text::hexadecimal(data[n - 1] as nat));
    lemma_hex_width(data[n - 1] as nat, 4);
    let t = words_text(data, n);
    let before = words_text(data, (n - 1) as nat);
    if n > 1 {
        law_every_word_is_shown(data, (n - 1) as nat, if i < n - 1 {
            i
        } else {
            0
        });
    } else {
        assert(before.len() == 0);
    }
    if i < n - 1 {
        assert(t.subrange(5 * i, 5 * i + 4) =~= before.subrange(5 * i, 5 * i + 4));
        assert(t[5 * i + 4] == before[5 * i + 4]);
    } else {
        assert(t.subrange(5 * i, 5 * i + 4) =~= last);
    }
}

/// A transaction shows as its command in two hexadecimal digits and the command's
/// name. Where there is data, the number of words follows, and the first six of them;
/// an ellipsis tells that there are more.
pub proof fn law_a_transaction_is_written_out(t: bus_decoder::Transaction) -> (parts: (
    Seq<char>,
    Seq<char>,
))
    ensures
        parts.0.len() == 2 && text::writes(16, parts.0, t.cmd as int),
        text::writes(10, parts.1, t.data.len() as int),
        t.data.len() == 0 ==> tx_text(t) == "0x"@ + parts.0 + " "@ + command_name(t.cmd),
        0 < t.data.len() <= 6 ==> tx_text(t) == "0x"@ + parts.0 + " "@ + command_name(t.cmd)
            + " ["@ + parts.1 + "]"@ + " "@ + words_text(t.data, t.data.len()),
        t.data.len() > 6 ==> tx_text(t) == "0x"@ + parts.0 + " "@ + command_name(t.cmd) + " ["@
            + parts.1 + "]"@ + " "@ + words_text(t.data, 6) + "…"@,
{
    lemma_hex_width(t.cmd as nat, 2);
    text::law_numbers_are_written(t.data.len(), 0);
    (text::padded('0', 2, text::hexadecimal(t.cmd as nat)), text::decimal(t.data.len()))
}

/// A sample shows as itself in eight hexadecimal digits, with the word it carries in
/// four behind the letter C for a command or D for data.
pub proof fn law_a_sample_is_written_out(rig: Board, sample: u32)
    ensures
        ({
            let t = sample_text(rig, sample);
            let (data, is_data) = board::bus_word(rig, sample);
            &&& t.len() == 16
            &&& text::writes(16, t.take(8), sample as int)
            &&& t[8] == '(' && t[10] == ':' && t[15] == ')'
            &&& t[9] == if is_data {
                'D'
            } else {
                'C'
            }
            &&& text::writes(16, t.subrange(11, 15), data as int)
        }),
{
    reveal_strlit("(");
    reveal_strlit(")");
    reveal_strlit(":");
    reveal_strlit("C");
    reveal_strlit("D");
    let (data, is_data) = board::bus_word(rig, sample);
    lemma_hex_width(sample as nat, 8);
    lemma_hex_width(data as nat, 4);
    let t = sample_text(rig, sample);
    assert(t.take(8) =~= text::padded('0', 8, text::hexadecimal(sample as nat)));
    assert(t.subrange(11, 15) =~= text::padded('0', 4, text::hexadecimal(data as nat)));
}

/// The samples of a BLOCK stand in order, each behind a space.
pub proof fn law_every_sample_is_shown(rig: Board, samples: Seq<u32>, i: int)
    requires
        0 <= i < samples.len(),
    ensures
        samples_text(rig, samples).len() == 17 * samples.len(),
        samples_text(rig, samples)[17 * i] == ' ',
        samples_text(rig, samples).subrange(17 * i + 1, 17 * i + 17) == sample_text(
            rig,
            samples[i],
        ),
    decreases samples.len(),
{
    reveal_strlit(" ");
    let t = samples_text(rig, samples);
    let before = samples_text(rig, samples.drop_last());
    law_a_sample_is_written_out(rig, samples.last());
    if samples.len() > 1 {
        law_every_sample_is_shown(rig, samples.drop_last(), if i < samples.len() - 1 {
            i
        } else {
            0
        });
    } else {
        assert(before.len() == 0);
    }
    if i < samples.len() - 1 {
        assert(t.subrange(17 * i + 1, 17 * i + 17) =~= before.subrange(17 * i + 1, 17 * i + 17));
        assert(t[17 * i] == before[17 * i]);
    } else {
        assert(t.subrange(17 * i + 1, 17 * i + 17) =~= sample_text(rig, samples[i]));
    }
}

/// Lists of run lengths join, in the text and in the total.
pub proof fn law_run_lengths_join(a: Seq<u8>, b: Seq<u8>, x: u8)
    requires
        a.len() > 0,
        b.len() > 0,
    ensures
        joined(a + b) == joined(a) + ", "@ + joined(b),
        text::writes(10, joined(seq![x]), x as int),
        total_len(a + b) == total_len(a) + total_len(b),
        total_len(seq![x]) == x,
    decreases b.len(),
{
    text::law_numbers_are_written(x as nat, 0);
    assert(total_len(Seq::empty()) == 0);
    assert(seq![x].drop_last() =~= Seq::<u8>::empty());
    let s = a + b;
    if b.len() == 1 {
        assert(s.drop_last() =~= a);
        assert(b.drop_last() =~= Seq::<u8>::empty());
        assert(joined(s) =~= joined(a) + ", "@ + joined(b));
    } else {
        law_run_lengths_join(a, b.drop_last(), x);
        assert(s.drop_last() =~= a + b.drop_last());
        assert(joined(s) =~= joined(a) + ", "@ + joined(b));
    }
}

/// The lines about events write their numbers in decimal, each behind its name.
pub proof fn law_events_are_written_out(
    rig: Board,
    samples: Seq<u32>,
    n: u16,
    sample: u32,
    dropped: u32,
) -> (parts: (Seq<char>, Seq<char>, Seq<char>))
    ensures
        block_line(rig, samples) == "BLOCK n="@ + text::padded(' ', 3, parts.0) + samples_text(
            rig,
            samples,
        ),
        run_line(rig, n, sample) == "RUN   n="@ + text::padded(' ', 5, parts.1) + " "@
            + sample_text(rig, sample),
        overrun_line(dropped) == "(firmware lost "@ + parts.2 + " WR edges)"@,
        text::writes(10, parts.0, samples.len() as int),
        text::writes(10, parts.1, n as int),
        text::writes(10, parts.2, dropped as int),
{
    text::law_numbers_are_written(samples.len(), 0);
    text::law_numbers_are_written(n as nat, 0);
    text::law_numbers_are_written(dropped as nat, 0);
    (text::decimal(samples.len()), text::decimal(n as nat), text::decimal(dropped as nat))
}

/// The line about a REPEAT2 tells the number of runs, their total, both samples, and
/// all lengths.
pub proof fn law_an_alternation_is_written_out(
    rig: Board,
    val_a: u32,
    val_b: u32,
    run_lens: Seq<u8>,
) -> (parts: (Seq<char>, Seq<char>))
    requires
        total_len(run_lens) < 0x1_0000_0000_0000_0000,
    ensures
        repeat2_line(rig, val_a, val_b, run_lens) == "RPT2  runs="@ + text::padded(
            ' ',
            3,
            parts.0,
        ) + " total="@ + text::padded(' ', 5, parts.1) + "  A="@ + sample_text(rig, val_a) + "  B="@
            + sample_text(rig, val_b) + "  lens=["@ + joined(run_lens) + "]"@,
        text::writes(10, parts.0, run_lens.len() as int),
        text::writes(10, parts.1, total_len(run_lens) as int),
{
    text::law_numbers_are_written(run_lens.len(), 0);
    text::law_numbers_are_written(total_len(run_lens), 0);
    (text::decimal(run_lens.len()), text::decimal(total_len(run_lens)))
}

/// The line about a TICK tells its five numbers, each behind its name.
pub proof fn law_a_tick_is_written_out(
    t_us: u32,
    dt_us: u16,
    n_drained: u16,
    n_pending: u16,
    bytes_out: u32,
) -> (p: (Seq<char>, Seq<char>, Seq<char>, Seq<char>, Seq<char>))
    ensures
        tick_line(t_us, dt_us, n_drained, n_pending, bytes_out) == "TICK  t="@ + text::padded(
            ' ',
            10,
            p.0,
        ) + "us dt="@ + text::padded(' ', 5, p.1) + "us drained="@ + text::padded(' ', 5, p.2)
            + " pending="@ + text::padded(' ', 5, p.3) + " bytes_out="@ + text::padded(
            ' ',
            10,
            p.4,
        ),
        text::writes(10, p.0, t_us as int),
        text::writes(10, p.1, dt_us as int),
        text::writes(10, p.2, n_drained as int),
        text::writes(10, p.3, n_pending as int),
        text::writes(10, p.4, bytes_out as int),
{
    text::law_numbers_are_written(t_us as nat, 0);
    text::law_numbers_are_written(dt_us as nat, 0);
    text::law_numbers_are_written(n_drained as nat, 0);
    text::law_numbers_are_written(n_pending as nat, 0);
    text::law_numbers_are_written(bytes_out as nat, 0);
    (
        text::decimal(t_us as nat),
        text::decimal(dt_us as nat),
        text::decimal(n_drained as nat),
        text::decimal(n_pending as nat),
        text::decimal(bytes_out as nat),
    )
}

/// The line about a glyph tells its size, where it shows, and its label.
pub proof fn law_a_glyph_is_written_out(g: glyph::Glyph) -> (p: (
    Seq<char>,
    Seq<char>,
    Seq<char>,
    Seq<char>,
))
    ensures
        glyph_line(g) == "→ "@ + p.0 + "x"@ + p.1 + "@("@ + text::padded('0', 3, p.2) + ","@
            + text::padded('0', 3, p.3) + ") = "@ + text::quoted(g.label),
        text::writes(10, p.0, g.w as int),
        text::writes(10, p.1, g.h as int),
        text::writes(10, p.2, g.disp_x as int),
        text::writes(10, p.3, g.disp_y as int),
{
    text::law_numbers_are_written(g.w as nat, 0);
    text::law_numbers_are_written(g.h as nat, 0);
    text::law_numbers_are_written(g.disp_x as nat, 0);
    text::law_numbers_are_written(g.disp_y as nat, 0);
    (
        text::decimal(g.w as nat),
        text::decimal(g.h as nat),
        text::decimal(g.disp_x as nat),
        text::decimal(g.disp_y as nat),
    )
}

} // verus!
