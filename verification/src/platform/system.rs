//! What the system reports of processor, memory and processes.

use vstd::prelude::*;

use crate::numeric;
use crate::path;
use crate::single::Single;
use crate::text;
use crate::text::{chars_of, parse_number, split, split_white, starts_with};

verus! {

/// A field as a number; one that is none counts as zero.
pub open spec fn field_number(fields: Seq<Seq<char>>, i: int) -> u64 {
    match text::number(fields[i]) {
        Some(n) => n,
        None => 0,
    }
}

fn number_at(fields: &Vec<Vec<char>>, i: usize) -> (r: u64)
    requires
        i < fields@.len(),
    ensures
        r == field_number(text::texts(fields@), i as int),
{
    match parse_number(&fields[i]) {
        Some(n) => n,
        None => 0,
    }
}

/// The time that the processor spent on different things, in ticks.
#[derive(Debug, Clone, Copy, PartialEq, Eq, Structural)]
pub struct CpuTimes {
    pub user: u64,
    pub nice: u64,
    pub system: u64,
    pub idle: u64,
}

impl CpuTimes {
    pub open spec fn busy(self) -> int {
        self.user + self.nice + self.system
    }

    pub open spec fn total(self) -> int {
        self.busy() + self.idle
    }
}

/// The times in the first line of the statistics of the system.
pub open spec fn cpu_times(stat: Seq<char>) -> Option<CpuTimes> {
    let line = text::pieces(stat, '\n')[0];
    let fields = text::fields(line);
    if text::stands_at(line, "cpu "@, 0) && fields.len() >= 5 {
        Some(
            CpuTimes {
                user: field_number(fields, 1),
                nice: field_number(fields, 2),
                system: field_number(fields, 3),
                idle: field_number(fields, 4),
            },
        )
    } else {
        None
    }
}

/// Reads the times from the statistics of the system.
pub fn read_cpu_times(stat: &str) -> (r: Option<CpuTimes>)
    ensures
        r == cpu_times(stat@),
{
    let lines = split(&chars_of(stat), '\n');
    proof {
        text::lemma_pieces_nonempty(stat@, '\n');
        assert(text::texts(lines@)[0] == lines@[0]@);
    }
    let line = &lines[0];
    if !starts_with(line, "cpu ") {
        return None;
    }
    let fields = split_white(line);
    if fields.len() < 5 {
        return None;
    }
    Some(
        CpuTimes {
            user: number_at(&fields, 1),
            nice: number_at(&fields, 2),
            system: number_at(&fields, 3),
            idle: number_at(&fields, 4),
        },
    )
}

/// The load of the processor between two readings.
#[derive(Debug, Clone, Copy, PartialEq, Eq, Structural)]
pub struct CpuMeter {
    pub total: u64,
    pub busy: u64,
}

/// What is left of `a` after `b`, but not less than nothing.
pub open spec fn excess(a: int, b: int) -> int {
    if a > b {
        a - b
    } else {
        0
    }
}

/// The part of the time, in percent, that was not idle.
pub open spec fn load(busy: int, total: int) -> Single {
    if total > 0 {
        Single::of_int(busy).quotient(Single::of_int(total)).product(Single::of_int(100))
    } else {
        Single { bits: 0 }
    }
}

impl CpuMeter {
    pub fn new() -> (r: Self)
        ensures
            r.total == 0,
            r.busy == 0,
    {
        CpuMeter { total: 0, busy: 0 }
    }

    /// The load in percent since the last reading.
    pub fn update(&mut self, times: CpuTimes) -> (r: Single)
        requires
            times.total() <= u64::MAX,
        ensures
            r == load(
                excess(times.busy(), old(self).busy as int),
                excess(times.total(), old(self).total as int),
            ),
            final(self).busy == times.busy(),
            final(self).total == times.total(),
    {
        let busy: u64 = times.user + times.nice + times.system;
        let total: u64 = busy + times.idle;
        let delta_total: u64 = if total > self.total {
            total - self.total
        } else {
            0
        };
        let delta_busy: u64 = if busy > self.busy {
            busy - self.busy
        } else {
            0
        };
        self.total = total;
        self.busy = busy;
        if delta_total > 0 {
            let part = Single::from_u64(delta_busy).over(Single::from_u64(delta_total));
            part.times(Single::from_u64(100))
        } else {
            Single { bits: 0 }
        }
    }

    /// The load in percent since the last reading, from the statistics of the system. What cannot
    /// be read counts as no load and is not remembered. `None` is given, with nothing remembered,
    /// where the times are too large to be added.
    pub fn get_cpu_usage(&mut self, stat: &str) -> (r: Option<Single>)
        ensures
            match cpu_times(stat@) {
                Some(times) => if times.total() <= u64::MAX {
                    &&& r == Some(
                        load(
                            excess(times.busy(), old(self).busy as int),
                            excess(times.total(), old(self).total as int),
                        ),
                    )
                    &&& final(self).busy == times.busy()
                    &&& final(self).total == times.total()
                } else {
                    &&& r is None
                    &&& *final(self) == *old(self)
                },
                None => {
                    &&& r == Some(Single { bits: 0 })
                    &&& *final(self) == *old(self)
                },
            },
    {
        match read_cpu_times(stat) {
            Some(times) => {
                let total: u128 = times.user as u128 + times.nice as u128 + times.system as u128
                    + times.idle as u128;
                if total <= 0xffff_ffff_ffff_ffff {
                    Some(self.update(times))
                } else {
                    None
                }
            },
            None => Some(Single { bits: 0 }),
        }
    }
}

/// The ticks that a process spent in user and in system mode, from its statistics: none where
/// there are too few fields.
pub open spec fn process_times(stat: Seq<char>) -> Option<(u64, u64)> {
    let fields = text::fields(stat);
    if fields.len() >= 14 {
        Some((field_number(fields, 13), field_number(fields, 14)))
    } else {
        None
    }
}

/// Reads the ticks of a process from its statistics.
pub fn read_process_times(stat: &str) -> (r: Option<(u64, u64)>)
    requires
        text::fields(stat@).len() != 14,
    ensures
        r == process_times(stat@),
{
    let fields = split_white(&chars_of(stat));
    assert(text::texts(fields@).len() == fields@.len());
    if fields.len() < 14 {
        return None;
    }
    Some((number_at(&fields, 13), number_at(&fields, 14)))
}

/// The second field of a line as a number; zero where there is none.
pub open spec fn second_number(line: Seq<char>) -> u64 {
    let fields = text::fields(line);
    if fields.len() > 1 {
        field_number(fields, 1)
    } else {
        0
    }
}

fn number_after_name(line: &Vec<char>) -> (r: u64)
    ensures
        r == second_number(line@),
{
    let fields = split_white(line);
    assert(text::texts(fields@).len() == fields@.len());
    if fields.len() > 1 {
        number_at(&fields, 1)
    } else {
        0
    }
}

/// The total and the available memory that some lines report; later lines count.
pub open spec fn memory(lines: Seq<Seq<char>>) -> (u64, u64)
    decreases lines.len(),
{
    if lines.len() == 0 {
        (0, 0)
    } else {
        let before = memory(lines.drop_last());
        let line = lines.last();
        if text::stands_at(line, "MemTotal:"@, 0) {
            (second_number(line), before.1)
        } else if text::stands_at(line, "MemAvailable:"@, 0) {
            (before.0, second_number(line))
        } else {
            before
        }
    }
}

/// The total and the available memory, in the unit of the report; zeros without a report.
pub fn get_memory_usage(meminfo: &Option<String>) -> (r: (u64, u64))
    ensures
        r == match *meminfo {
            Some(t) => memory(text::pieces(t@, '\n')),
            None => (0u64, 0u64),
        },
{
    let report = match meminfo {
        Some(t) => t,
        None => {
            return (0, 0);
        },
    };
    let lines = split(&chars_of(report.as_str()), '\n');
    let ghost all = text::texts(lines@);
    let mut total: u64 = 0;
    let mut available: u64 = 0;
    let mut i: usize = 0;
    assert(all.take(0) =~= Seq::empty());
    while i < lines.len()
        invariant
            i <= lines@.len(),
            all == text::texts(lines@),
            (total, available) == memory(all.take(i as int)),
        decreases lines.len() - i,
    {
        assert(all.take(i + 1).drop_last() =~= all.take(i as int));
        assert(all.take(i + 1).last() == lines@[i as int]@);
        if starts_with(&lines[i], "MemTotal:") {
            total = number_after_name(&lines[i]);
        } else if starts_with(&lines[i], "MemAvailable:") {
            available = number_after_name(&lines[i]);
        }
        i = i + 1;
    }
    assert(all.take(i as int) =~= all);
    (total, available)
}

/// The number of a process that the name of its directory stands for.
pub open spec fn process_number(name: Seq<char>) -> Option<u32> {
    match text::number(name) {
        Some(n) => if n <= u32::MAX {
            Some(n as u32)
        } else {
            None
        },
        None => None,
    }
}

fn process_number_of(name: &str) -> (r: Option<u32>)
    ensures
        r == process_number(name@),
{
    match parse_number(&chars_of(name)) {
        Some(n) => if n <= 0xffff_ffff {
            Some(n as u32)
        } else {
            None
        },
        None => None,
    }
}

/// An entry, the name of a directory and the path of what runs there, stands for another process
/// that runs the program with the given path.
pub open spec fn is_duplicate(
    pid: u32,
    exe: Seq<u8>,
    entry: (String, Option<Vec<u8>>),
) -> bool {
    process_number(entry.0@) matches Some(other) && other != pid && path::maybe(entry.1) == Some(exe)
}

/// Whether another process runs the same program, from the path of our own program and, for each
/// directory of a process, its name and the path of what runs there. Where our own path is not
/// known, there is none.
pub fn check_duplicate_instances(
    pid: u32,
    exe: Option<&[u8]>,
    processes: &Vec<(String, Option<Vec<u8>>)>,
) -> (r: bool)
    ensures
        r == (exe matches Some(own) && exists|i: int|
            0 <= i < processes@.len() && is_duplicate(pid, own@, #[trigger] processes@[i])),
{
    let own = match exe {
        Some(own) => own,
        None => {
            return false;
        },
    };
    let mut i: usize = 0;
    while i < processes.len()
        invariant
            exe == Some(own),
            i <= processes@.len(),
            forall|k: int| 0 <= k < i ==> !is_duplicate(pid, own@, #[trigger] processes@[k]),
        decreases processes.len() - i,
    {
        if let Some(other_exe) = &processes[i].1 {
            if path::same(other_exe.as_slice(), own) {
                if let Some(other) = process_number_of(processes[i].0.as_str()) {
                    if other != pid {
                        assert(is_duplicate(pid, own@, processes@[i as int]));
                        return true;
                    }
                }
            }
        }
        i = i + 1;
    }
    false
}

/// A second reading of the same times is no load.
pub proof fn law_no_time_no_load(times: CpuTimes)
    ensures
        load(excess(times.busy(), times.busy()), excess(times.total(), times.total())) == (Single {
            bits: 0,
        }),
{
}

/// The load is the busy part of the time in percent, up to rounding.
pub proof fn law_load_percent(busy: int, total: int)
    requires
        0 <= busy <= total,
        0 < total <= u64::MAX,
    ensures
        numeric::size_of(
            numeric::number(load(busy, total)) - 100real * (busy as real / (total as real)),
        ) <= 1real / 10000real,
{
    numeric::lemma_powers();
    numeric::lemma_power_rises(64, 127);
    vstd::arithmetic::power2::lemma2_to64();
    assert(numeric::power(64) == 18446744073709551616real);
    numeric::law_of_int(busy);
    numeric::law_of_int(total);
    numeric::law_of_int(100);
    let (br, tr) = (busy as real, total as real);
    let (sb, st) = (Single::of_int(busy), Single::of_int(total));
    let (b1, t1) = (numeric::number(sb), numeric::number(st));
    numeric::lemma_close(b1, br, br);
    numeric::lemma_close(t1, tr, tr);
    let x = br / tr;
    let y = b1 / t1;
    assert(x * tr == br && 0real <= x <= 1real) by (nonlinear_arith)
        requires
            x == br / tr,
            0real <= br <= tr,
            tr > 0real,
    ;
    assert(y * t1 == b1) by (nonlinear_arith)
        requires
            y == b1 / t1,
            t1 > 0real,
    ;
    let w = t1 - tr;
    assert((y - x) * t1 == (b1 - br) - x * w) by (nonlinear_arith)
        requires
            y * t1 == b1,
            x * tr == br,
            w == t1 - tr,
    ;
    assert(-2real * tr <= x * w * 16777216real <= 2real * tr) by (nonlinear_arith)
        requires
            0real <= x <= 1real,
            -2real * tr <= w * 16777216real <= 2real * tr,
            tr > 0real,
    ;
    let d = y - x;
    assert(-4real * tr <= d * t1 * 16777216real <= 4real * tr);
    assert(d * 16777216real <= 5real) by (nonlinear_arith)
        requires
            d * t1 * 16777216real <= 4real * tr,
            t1 >= tr * 99real / 100real,
            tr > 0real,
    ;
    assert(d * 16777216real >= -5real) by (nonlinear_arith)
        requires
            d * t1 * 16777216real >= -4real * tr,
            t1 >= tr * 99real / 100real,
            tr > 0real,
    ;
    numeric::law_quotient(sb, st);
    let q = sb.quotient(st);
    numeric::lemma_close(numeric::number(q), y, 2real);
    numeric::law_product(q, Single::of_int(100));
    numeric::lemma_close(
        numeric::number(q.product(Single::of_int(100))),
        numeric::number(q) * 100real,
        200real,
    );
}

proof fn lemma_field_read(fields: Seq<Seq<char>>, i: int, n: u64)
    requires
        fields[i] == text::decimal(n as nat),
    ensures
        field_number(fields, i) == n,
{
    text::law_decimal_read(n as nat);
}

/// The times are the four numbers behind the label `cpu` in the first line; what follows that
/// line does not count.
pub proof fn law_cpu_times_read(line: Seq<char>, rest: Seq<char>, times: CpuTimes)
    requires
        !line.contains('\n'),
        rest.len() == 0 || rest[0] == '\n',
    ensures
        ({
            let fields = text::fields(line);
            text::stands_at(line, "cpu "@, 0) && fields.len() >= 5 && fields[1] == text::decimal(
                times.user as nat,
            ) && fields[2] == text::decimal(times.nice as nat) && fields[3] == text::decimal(
                times.system as nat,
            ) && fields[4] == text::decimal(times.idle as nat) ==> cpu_times(line + rest) == Some(
                times,
            )
        }),
        !text::stands_at(line, "cpu "@, 0) ==> cpu_times(line + rest) is None,
        text::fields(line).len() < 5 ==> cpu_times(line + rest) is None,
{
    text::law_first_piece(line, rest, '\n');
    let fields = text::fields(line);
    if fields.len() >= 5 && fields[1] == text::decimal(times.user as nat) && fields[2]
        == text::decimal(times.nice as nat) && fields[3] == text::decimal(times.system as nat)
        && fields[4] == text::decimal(times.idle as nat) {
        lemma_field_read(fields, 1, times.user);
        lemma_field_read(fields, 2, times.nice);
        lemma_field_read(fields, 3, times.system);
        lemma_field_read(fields, 4, times.idle);
    }
}

/// The ticks of a process are the fourteenth and the fifteenth field of its statistics.
pub proof fn law_process_times_read(stat: Seq<char>, user: u64, system: u64)
    requires
        text::fields(stat).len() >= 15,
        text::fields(stat)[13] == text::decimal(user as nat),
        text::fields(stat)[14] == text::decimal(system as nat),
    ensures
        process_times(stat) == Some((user, system)),
{
    lemma_field_read(text::fields(stat), 13, user);
    lemma_field_read(text::fields(stat), 14, system);
}

proof fn lemma_memory_labels(line: Seq<char>)
    ensures
        !(text::stands_at(line, "MemTotal:"@, 0) && text::stands_at(line, "MemAvailable:"@, 0)),
{
    reveal_strlit("MemTotal:");
    reveal_strlit("MemAvailable:");
    if text::stands_at(line, "MemTotal:"@, 0) && text::stands_at(line, "MemAvailable:"@, 0) {
        let (a, b) = (line.subrange(0, 9), line.subrange(0, 13));
        assert(a == "MemTotal:"@ && b == "MemAvailable:"@);
        assert(a[3] == line[3] && b[3] == line[3]);
    }
}

/// The memory is what the last line with its label reports; without such a line it is zero.
pub proof fn law_memory_read(lines: Seq<Seq<char>>, k: int, n: u64)
    requires
        -1 <= k < lines.len(),
        k == -1 ==> n == 0,
        k >= 0 ==> text::fields(lines[k]).len() > 1 && text::fields(lines[k])[1] == text::decimal(
            n as nat,
        ),
    ensures
        (k >= 0 ==> text::stands_at(lines[k], "MemTotal:"@, 0)) && (forall|j: int|
            k < j < lines.len() ==> !text::stands_at(#[trigger] lines[j], "MemTotal:"@, 0))
            ==> memory(lines).0 == n,
        (k >= 0 ==> text::stands_at(lines[k], "MemAvailable:"@, 0)) && (forall|j: int|
            k < j < lines.len() ==> !text::stands_at(#[trigger] lines[j], "MemAvailable:"@, 0))
            ==> memory(lines).1 == n,
    decreases lines.len(),
{
    if lines.len() > 0 {
        let front = lines.drop_last();
        lemma_memory_labels(lines.last());
        if k == lines.len() - 1 {
            lemma_field_read(text::fields(lines[k]), 1, n);
        } else {
            law_memory_read(front, k, n);
            let last = lines[lines.len() - 1];
            assert(forall|j: int| k < j < front.len() ==> front[j] == lines[j]);
        }
    }
}

/// A running program is a duplicate exactly where its directory is named by the number of another
/// process and it runs from the same file.
pub proof fn law_duplicate_read(
    pid: u32,
    exe: Seq<u8>,
    entry: (String, Option<Vec<u8>>),
    other: u32,
)
    requires
        entry.0@ == text::decimal(other as nat),
    ensures
        is_duplicate(pid, exe, entry) == (other != pid && entry.1 is Some && entry.1->0@ == exe),
{
    text::law_decimal_read(other as nat);
}

} // verus!
