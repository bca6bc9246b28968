//! The CSV sources of a device model: where they are, what they hold, and the byte budget of the
//! samples that are compiled into the firmware.
use vstd::prelude::*;

use crate::csv;
use crate::csv::CsvError;
use crate::device_model;
use crate::device_model::{CsvModeDef, DeviceModel, EMBEDDED_CSV_BUDGET_BYTES};
use crate::ordering;
use crate::paths;
use crate::text;

verus! {

/// What reading a CSV file gave.
#[derive(Debug)]
pub struct CsvFile {
    /// The path, as messages show it.
    pub path: String,
    /// The text of the file, or why it could not be read.
    pub text: Result<String, String>,
}

/// A [`CsvFile`] with its strings as sequences.
pub struct CsvFileView {
    pub path: Seq<char>,
    pub text: Result<Seq<char>, Seq<char>>,
}

impl View for CsvFile {
    type V = CsvFileView;

    open spec fn view(&self) -> CsvFileView {
        CsvFileView {
            path: self.path@,
            text: match self.text {
                Ok(content) => Ok(content@),
                Err(detail) => Err(detail@),
            },
        }
    }
}

/// Why a CSV file gives no samples.
#[derive(Debug)]
pub enum LoadError {
    /// It could not be read.
    Unreadable { path: String, detail: String },
    /// Its text holds none.
    Csv { error: CsvError },
}

/// A [`LoadError`] with its strings as sequences.
pub enum LoadErrorView {
    Unreadable { path: Seq<char>, detail: Seq<char> },
    Csv { error: csv::CsvErrorView },
}

impl View for LoadError {
    type V = LoadErrorView;

    open spec fn view(&self) -> LoadErrorView {
        match *self {
            LoadError::Unreadable { path, detail } => LoadErrorView::Unreadable {
                path: path@,
                detail: detail@,
            },
            LoadError::Csv { error } => LoadErrorView::Csv { error: error@ },
        }
    }
}

impl LoadErrorView {
    /// The message for a reader.
    pub open spec fn message(self) -> Seq<char> {
        match self {
            LoadErrorView::Unreadable { path, detail } => "reading "@ + path + ": "@ + detail,
            LoadErrorView::Csv { error } => error.message(),
        }
    }
}

impl LoadError {
    /// The message for a reader.
    pub fn message(&self) -> (out: String)
        ensures
            out@ == self@.message(),
    {
        match self {
            LoadError::Unreadable { path, detail } => {
                let mut out = String::new();
                out.append("reading ");
                out.append(path.as_str());
                out.append(": ");
                out.append(detail.as_str());
                assert(out@ =~= self@.message());
                out
            },
            LoadError::Csv { error } => error.message(),
        }
    }
}

/// The samples of a CSV file.
pub open spec fn file_samples(file: CsvFileView) -> Result<Seq<u8>, LoadErrorView> {
    match file.text {
        Ok(content) => match csv::csv_samples(content, file.path) {
            Ok(samples) => Ok(samples),
            Err(error) => Err(LoadErrorView::Csv { error }),
        },
        Err(detail) => Err(LoadErrorView::Unreadable { path: file.path, detail }),
    }
}

/// The samples of a CSV file that was read.
pub fn load_csv_samples(file: &CsvFile) -> (samples: Result<Vec<u8>, LoadError>)
    ensures
        match samples {
            Ok(bytes) => file_samples(file@) == Ok::<Seq<u8>, LoadErrorView>(bytes@),
            Err(error) => file_samples(file@) == Err::<Seq<u8>, LoadErrorView>(error@),
        },
{
    match &file.text {
        Ok(content) => match csv::parse_csv_samples(content.as_str(), file.path.as_str()) {
            Ok(samples) => Ok(samples),
            Err(error) => Err(LoadError::Csv { error }),
        },
        Err(detail) => Err(
            LoadError::Unreadable { path: file.path.clone(), detail: detail.clone() },
        ),
    }
}

/// The register at `i` is the next one with a CSV source behind those before it.
pub proof fn lemma_csv_register_at(regs: Seq<device_model::RegisterDef>, i: int)
    requires
        0 <= i < regs.len(),
        regs[i].csv is Some,
    ensures
        device_model::csv_registers(regs.take(i + 1)) == device_model::csv_registers(
            regs.take(i),
        ).push(regs[i]),
        device_model::csv_registers(regs.take(i)).len() < device_model::csv_registers(regs).len(),
        device_model::csv_registers(regs)[device_model::csv_registers(regs.take(i)).len() as int]
            == regs[i],
{
    let pred = |r: device_model::RegisterDef| r.csv is Some;
    let next = regs.take(i + 1);
    assert(next.drop_last() =~= regs.take(i));
    assert(next.last() == regs[i]);
    reveal(Seq::filter);
    assert(regs =~= next + regs.skip(i + 1));
    Seq::filter_distributes_over_add(next, regs.skip(i + 1), pred);
}

/// Registers without a CSV source do not count.
pub proof fn lemma_other_register_at(regs: Seq<device_model::RegisterDef>, i: int)
    requires
        0 <= i < regs.len(),
        regs[i].csv is None,
    ensures
        device_model::csv_registers(regs.take(i + 1)) == device_model::csv_registers(regs.take(i)),
{
    let next = regs.take(i + 1);
    assert(next.drop_last() =~= regs.take(i));
    assert(next.last() == regs[i]);
    reveal(Seq::filter);
}

/// `places` are where the CSV sources of some registers are, which a model at `model_path` has: each
/// path is relative to the directory of the model.
pub open spec fn are_places(
    places: Seq<String>,
    regs: Seq<device_model::RegisterDef>,
    model_path: Seq<char>,
) -> bool {
    &&& places.len() == regs.len()
    &&& exists|base: Seq<char>|
        #[trigger] paths::is_base(model_path, base) && places_under(places, regs, base)
}

/// `places` are where the paths of the first registers lead from a directory.
pub open spec fn places_under(
    places: Seq<String>,
    regs: Seq<device_model::RegisterDef>,
    base: Seq<char>,
) -> bool {
    forall|k: int|
        0 <= k < places.len() ==> paths::is_joined(
            base,
            regs[k].csv->0.path@,
            (#[trigger] places[k])@,
        )
}

/// The CSV files of the model at `model_path`, in the order of its registers.
pub fn resolve_csv_paths(model: &DeviceModel, model_path: &str) -> (places: Vec<String>)
    ensures
        are_places(places@, device_model::csv_registers(model.registers@), model_path@),
{
    let base = paths::base_dir(model_path);
    let regs = &model.registers;
    let mut places: Vec<String> = Vec::new();
    let mut i: usize = 0;
    proof {
        reveal(Seq::filter);
    }
    assert(regs@.take(0).len() == 0);
    while i < regs.len()
        invariant
            i <= regs.len(),
            regs == &model.registers,
            places@.len() == device_model::csv_registers(regs@.take(i as int)).len(),
            places@.len() <= device_model::csv_registers(regs@).len(),
            places_under(places@, device_model::csv_registers(regs@), base@),
        decreases regs.len() - i,
    {
        if let Some(csv) = &regs[i].csv {
            proof {
                lemma_csv_register_at(regs@, i as int);
            }
            places.push(paths::joined(base.as_str(), csv.path.as_str()));
        } else {
            proof {
                lemma_other_register_at(regs@, i as int);
            }
        }
        i = i + 1;
    }
    assert(regs@.take(regs.len() as int) =~= regs@);
    places
}

/// A register with a CSV source and, where they are compiled in, its samples.
#[derive(Debug)]
pub struct ResolvedCsvSpec {
    pub addr: u16,
    pub mode: CsvModeDef,
    pub data: Vec<u8>,
}

/// A [`ResolvedCsvSpec`] with its samples as a sequence.
pub struct CsvSpec {
    pub addr: u16,
    pub mode: CsvModeDef,
    pub data: Seq<u8>,
}

impl View for ResolvedCsvSpec {
    type V = CsvSpec;

    open spec fn view(&self) -> CsvSpec {
        CsvSpec { addr: self.addr, mode: self.mode, data: self.data@ }
    }
}

/// Resolved sources as a sequence.
pub open spec fn spec_views(specs: Seq<ResolvedCsvSpec>) -> Seq<CsvSpec> {
    specs.map_values(|s: ResolvedCsvSpec| s@)
}

/// How many bytes a source puts into the firmware.
pub open spec fn embedded_len(spec: CsvSpec) -> nat {
    if spec.mode == CsvModeDef::Embedded { spec.data.len() } else { 0 }
}

/// How many bytes sources put into the firmware.
pub open spec fn embedded_total(specs: Seq<CsvSpec>) -> nat
    decreases specs.len(),
{
    if specs.len() == 0 {
        0
    } else {
        embedded_total(specs.drop_last()) + embedded_len(specs.last())
    }
}

/// The address and byte count of every source that is compiled in.
pub open spec fn embedded_sizes(specs: Seq<CsvSpec>) -> Seq<(u16, nat)>
    decreases specs.len(),
{
    if specs.len() == 0 {
        Seq::empty()
    } else if specs.last().mode == CsvModeDef::Embedded {
        embedded_sizes(specs.drop_last()).push((specs.last().addr, specs.last().data.len()))
    } else {
        embedded_sizes(specs.drop_last())
    }
}

/// The embedded samples do not fit.
#[derive(Debug)]
pub enum BudgetError {
    /// Their byte count does not fit a machine word; with the register at which that shows.
    Overflow { addr: u16 },
    /// They exceed the budget; with the byte count of every register.
    Exceeded { total: usize, sizes: Vec<(u16, usize)> },
}

/// A [`BudgetError`] with its numbers unbounded.
pub enum BudgetErrorView {
    Overflow { addr: u16 },
    Exceeded { total: nat, sizes: Seq<(u16, nat)> },
}

/// Byte counts with their numbers unbounded.
pub open spec fn size_views(sizes: Seq<(u16, usize)>) -> Seq<(u16, nat)> {
    sizes.map_values(|s: (u16, usize)| (s.0, s.1 as nat))
}

impl View for BudgetError {
    type V = BudgetErrorView;

    open spec fn view(&self) -> BudgetErrorView {
        match *self {
            BudgetError::Overflow { addr } => BudgetErrorView::Overflow { addr },
            BudgetError::Exceeded { total, sizes } => BudgetErrorView::Exceeded {
                total: total as nat,
                sizes: size_views(sizes@),
            },
        }
    }
}

/// A register address in hexadecimal, as messages show it.
pub open spec fn addr_text(addr: u16) -> Seq<char> {
    "0x"@ + text::zero_padded(text::hex_text(addr as nat), 2)
}

/// The byte count of one register, as messages show it.
pub open spec fn size_text(size: (u16, nat)) -> Seq<char> {
    addr_text(size.0) + ":"@ + text::dec_text(size.1) + "B"@
}

/// The byte counts of registers, with commas between them.
pub open spec fn sizes_text(sizes: Seq<(u16, nat)>) -> Seq<char>
    decreases sizes.len(),
{
    if sizes.len() == 0 {
        Seq::empty()
    } else if sizes.len() == 1 {
        size_text(sizes[0])
    } else {
        sizes_text(sizes.drop_last()) + ", "@ + size_text(sizes.last())
    }
}

/// By how many bytes the budget is exceeded.
pub open spec fn over_budget(total: nat) -> nat {
    if total > EMBEDDED_CSV_BUDGET_BYTES { (total - EMBEDDED_CSV_BUDGET_BYTES) as nat } else { 0 }
}

impl BudgetErrorView {
    /// The message for a reader.
    pub open spec fn message(self) -> Seq<char> {
        match self {
            BudgetErrorView::Overflow { addr } =>
                "embedded CSV size overflow while summing register "@ + addr_text(addr),
            BudgetErrorView::Exceeded { total, sizes } => "embedded CSV payload exceeds budget: "@
                + text::dec_text(total) + " bytes total (budget "@ + text::dec_text(
                EMBEDDED_CSV_BUDGET_BYTES as nat,
            ) + " bytes, over by "@ + text::dec_text(over_budget(total))
                + " bytes). Per-register embedded sizes: "@ + sizes_text(sizes)
                + ". Reduce embedded CSV sizes or switch registers to host_stream."@,
        }
    }
}

/// Appends a register address as messages show it.
pub(crate) fn push_addr(out: &mut String, addr: u16)
    ensures
        final(out)@ == old(out)@ + addr_text(addr),
{
    out.append("0x");
    text::push_hex(out, addr as u64, 2);
    assert(final(out)@ =~= old(out)@ + addr_text(addr));
}

fn push_sizes(out: &mut String, sizes: &Vec<(u16, usize)>)
    ensures
        final(out)@ == old(out)@ + sizes_text(size_views(sizes@)),
{
    let ghost start = out@;
    let ghost views = size_views(sizes@);
    let mut i: usize = 0;
    assert(start + sizes_text(views.take(0)) =~= start);
    while i < sizes.len()
        invariant
            i <= sizes.len(),
            views == size_views(sizes@),
            out@ == start + sizes_text(views.take(i as int)),
        decreases sizes.len() - i,
    {
        if i > 0 {
            out.append(", ");
        }
        push_addr(out, sizes[i].0);
        out.append(":");
        text::push_dec(out, sizes[i].1 as u64);
        out.append("B");
        proof {
            let next = views.take(i + 1);
            assert(next.drop_last() =~= views.take(i as int));
            assert(next.last() == (sizes@[i as int].0, sizes@[i as int].1 as nat));
            assert(out@ =~= start + sizes_text(next));
        }
        i = i + 1;
    }
    assert(views.take(sizes.len() as int) =~= views);
}

impl BudgetError {
    /// The message for a reader.
    pub fn message(&self) -> (out: String)
        ensures
            out@ == self@.message(),
    {
        let mut out = String::new();
        match self {
            BudgetError::Overflow { addr } => {
                out.append("embedded CSV size overflow while summing register ");
                push_addr(&mut out, *addr);
            },
            BudgetError::Exceeded { total, sizes } => {
                out.append("embedded CSV payload exceeds budget: ");
                text::push_dec(&mut out, *total as u64);
                out.append(" bytes total (budget ");
                text::push_dec(&mut out, EMBEDDED_CSV_BUDGET_BYTES as u64);
                out.append(" bytes, over by ");
                text::push_dec(&mut out, total.saturating_sub(EMBEDDED_CSV_BUDGET_BYTES) as u64);
                out.append(" bytes). Per-register embedded sizes: ");
                push_sizes(&mut out, sizes);
                out.append(". Reduce embedded CSV sizes or switch registers to host_stream.");
            },
        }
        assert(out@ =~= self@.message());
        out
    }
}

/// The first source with which the byte count no longer fits a machine word, among the first `n`.
pub open spec fn overflow_addr(specs: Seq<CsvSpec>, n: nat) -> Option<u16>
    decreases n,
{
    if n == 0 {
        None
    } else {
        match overflow_addr(specs, (n - 1) as nat) {
            Some(addr) => Some(addr),
            None => if embedded_total(specs.take(n as int)) > usize::MAX {
                Some(specs[n - 1].addr)
            } else {
                None
            },
        }
    }
}

/// What is wrong with the amount of embedded samples.
pub open spec fn budget_error(specs: Seq<CsvSpec>) -> Option<BudgetErrorView> {
    match overflow_addr(specs, specs.len()) {
        Some(addr) => Some(BudgetErrorView::Overflow { addr }),
        None => if embedded_total(specs) > EMBEDDED_CSV_BUDGET_BYTES {
            Some(
                BudgetErrorView::Exceeded {
                    total: embedded_total(specs),
                    sizes: embedded_sizes(specs),
                },
            )
        } else {
            None
        },
    }
}

proof fn lemma_overflow_stands(specs: Seq<CsvSpec>, n: nat, all: nat)
    requires
        n <= all,
    ensures
        overflow_addr(specs, n) is Some ==> overflow_addr(specs, all) == overflow_addr(specs, n),
    decreases all,
{
    if n < all {
        lemma_overflow_stands(specs, n, (all - 1) as nat);
    }
}

/// The byte count does not fall as sources are added.
pub proof fn lemma_total_grows(specs: Seq<CsvSpec>, n: int)
    requires
        0 <= n <= specs.len(),
    ensures
        embedded_total(specs.take(n)) <= embedded_total(specs),
    decreases specs.len(),
{
    if n == specs.len() {
        assert(specs.take(n) =~= specs);
    } else {
        lemma_total_grows(specs.drop_last(), n);
        assert(specs.drop_last().take(n) =~= specs.take(n));
    }
}

/// Embedded samples within the budget are accepted, others are not.
pub proof fn lemma_budget_error_iff(specs: Seq<CsvSpec>)
    ensures
        budget_error(specs) is None <==> embedded_total(specs) <= EMBEDDED_CSV_BUDGET_BYTES,
{
    lemma_overflow_iff(specs, specs.len());
    assert(specs.take(specs.len() as int) =~= specs);
}

pub proof fn lemma_overflow_iff(specs: Seq<CsvSpec>, n: nat)
    requires
        n <= specs.len(),
    ensures
        overflow_addr(specs, n) is Some <==> embedded_total(specs.take(n as int)) > usize::MAX,
    decreases n,
{
    if n > 0 {
        lemma_overflow_iff(specs, (n - 1) as nat);
        let here = specs.take(n as int);
        lemma_total_grows(here, n - 1);
        assert(here.take(n - 1) =~= specs.take(n - 1));
    }
}

/// Holds the embedded samples to their budget.
pub fn enforce_embedded_csv_budget(csv_specs: &Vec<ResolvedCsvSpec>) -> (checked: Result<
    (),
    BudgetError,
>)
    ensures
        checked is Ok <==> embedded_total(spec_views(csv_specs@)) <= EMBEDDED_CSV_BUDGET_BYTES,
        match checked {
            Ok(_) => budget_error(spec_views(csv_specs@)) is None,
            Err(error) => budget_error(spec_views(csv_specs@)) == Some(error@),
        },
{
    let ghost views = spec_views(csv_specs@);
    let mut total: usize = 0;
    let mut sizes: Vec<(u16, usize)> = Vec::new();
    let mut i: usize = 0;
    proof {
        lemma_budget_error_iff(views);
        assert(size_views(sizes@) =~= embedded_sizes(views.take(0)));
    }
    while i < csv_specs.len()
        invariant
            i <= csv_specs.len(),
            views == spec_views(csv_specs@),
            total == embedded_total(views.take(i as int)),
            size_views(sizes@) == embedded_sizes(views.take(i as int)),
            overflow_addr(views, i as nat) is None,
            budget_error(views) is None <==> embedded_total(views) <= EMBEDDED_CSV_BUDGET_BYTES,
        decreases csv_specs.len() - i,
    {
        let spec = &csv_specs[i];
        proof {
            let next = views.take(i + 1);
            assert(next.drop_last() =~= views.take(i as int));
            assert(next.last() == spec@);
            lemma_overflow_stands(views, i as nat + 1, views.len());
        }
        if spec.mode == CsvModeDef::Embedded {
            let len: usize = spec.data.len();
            match total.checked_add(len) {
                Some(sum) => {
                    total = sum;
                },
                None => {
                    return Err(BudgetError::Overflow { addr: spec.addr });
                },
            }
            let ghost before = sizes@;
            sizes.push((spec.addr, len));
            assert(size_views(sizes@) =~= size_views(before).push((spec.addr, len as nat)));
        }
        i = i + 1;
    }
    assert(views.take(csv_specs.len() as int) =~= views);
    if total <= EMBEDDED_CSV_BUDGET_BYTES {
        return Ok(());
    }
    Err(BudgetError::Exceeded { total, sizes })
}

/// Why the CSV sources of a model cannot be used.
#[derive(Debug)]
pub enum SpecsError {
    /// The file of a register gives no samples.
    Load { addr: u16, path: String, error: LoadError },
    /// The embedded samples do not fit.
    Budget { excess: BudgetError },
}

/// A [`SpecsError`] with its strings as sequences.
pub enum SpecsErrorView {
    Load { addr: u16, path: Seq<char>, error: LoadErrorView },
    Budget { excess: BudgetErrorView },
}

impl View for SpecsError {
    type V = SpecsErrorView;

    open spec fn view(&self) -> SpecsErrorView {
        match *self {
            SpecsError::Load { addr, path, error } => SpecsErrorView::Load {
                addr,
                path: path@,
                error: error@,
            },
            SpecsError::Budget { excess } => SpecsErrorView::Budget { excess: excess@ },
        }
    }
}

impl SpecsErrorView {
    /// The message for a reader.
    pub open spec fn message(self) -> Seq<char> {
        match self {
            SpecsErrorView::Load { addr, path, error } => "loading CSV for register "@ + addr_text(
                addr,
            ) + " from "@ + path + ": "@ + error.message(),
            SpecsErrorView::Budget { excess } => excess.message(),
        }
    }
}

impl SpecsError {
    /// The message for a reader.
    pub fn message(&self) -> (out: String)
        ensures
            out@ == self@.message(),
    {
        match self {
            SpecsError::Load { addr, path, error } => {
                let mut out = String::new();
                out.append("loading CSV for register ");
                push_addr(&mut out, *addr);
                out.append(" from ");
                out.append(path.as_str());
                out.append(": ");
                out.append(error.message().as_str());
                assert(out@ =~= self@.message());
                out
            },
            SpecsError::Budget { excess } => excess.message(),
        }
    }
}

/// The samples that a source keeps: those that are compiled in.
pub open spec fn kept_samples(mode: CsvModeDef, samples: Seq<u8>) -> Seq<u8> {
    if mode == CsvModeDef::Embedded { samples } else { Seq::empty() }
}

/// The sources of the first `n` registers that have one, in the order of the registers; the first
/// file that gives no samples decides otherwise.
pub open spec fn loaded_specs(
    regs: Seq<device_model::RegisterDef>,
    files: Seq<CsvFile>,
    n: nat,
) -> Result<Seq<CsvSpec>, SpecsErrorView>
    decreases n,
{
    if n == 0 {
        Ok(Seq::empty())
    } else {
        let reg = regs[n - 1];
        let mode = reg.csv->0.mode;
        match loaded_specs(regs, files, (n - 1) as nat) {
            Ok(specs) => match file_samples(files[n - 1]@) {
                Ok(samples) => Ok(
                    specs.push(
                        CsvSpec { addr: reg.addr, mode, data: kept_samples(mode, samples) },
                    ),
                ),
                Err(error) => Err(
                    SpecsErrorView::Load { addr: reg.addr, path: files[n - 1]@.path, error },
                ),
            },
            Err(error) => Err(error),
        }
    }
}

/// What sources are sorted by.
pub open spec fn spec_key() -> spec_fn(CsvSpec) -> int {
    |s: CsvSpec| s.addr as int
}

/// The sources of a model, sorted by address and held to the budget.
pub open spec fn resolved_specs(
    regs: Seq<device_model::RegisterDef>,
    files: Seq<CsvFile>,
) -> Result<Seq<CsvSpec>, SpecsErrorView> {
    let with_csv = device_model::csv_registers(regs);
    match loaded_specs(with_csv, files, with_csv.len()) {
        Ok(specs) => {
            let sorted = ordering::sort_by(specs, spec_key());
            match budget_error(sorted) {
                None => Ok(sorted),
                Some(excess) => Err(SpecsErrorView::Budget { excess }),
            }
        },
        Err(error) => Err(error),
    }
}

proof fn lemma_load_failure_stands(
    regs: Seq<device_model::RegisterDef>,
    files: Seq<CsvFile>,
    n: nat,
    all: nat,
)
    requires
        n <= all,
        loaded_specs(regs, files, n) is Err,
    ensures
        loaded_specs(regs, files, all) == loaded_specs(regs, files, n),
    decreases all,
{
    if n < all {
        lemma_load_failure_stands(regs, files, n, (all - 1) as nat);
    }
}

/// Inserts a source behind those with no larger address.
fn insert_spec(specs: &mut Vec<ResolvedCsvSpec>, spec: ResolvedCsvSpec)
    ensures
        spec_views(final(specs)@) == ordering::insert_by(
            spec_views(old(specs)@),
            spec@,
            spec_key(),
        ),
{
    let ghost views = spec_views(specs@);
    let mut at: usize = specs.len();
    while at > 0 && specs[at - 1].addr > spec.addr
        invariant
            at <= specs.len(),
            views == spec_views(specs@),
            forall|i: int|
                at <= i < views.len() ==> spec_key()(spec@) < spec_key()(#[trigger] views[i]),
        decreases at,
    {
        assert(views[at - 1] == specs@[at - 1]@);
        at = at - 1;
    }
    proof {
        if at > 0 {
            assert(views[at - 1] == specs@[at - 1]@);
        }
        ordering::lemma_insert_at(views, spec@, spec_key(), at as int);
    }
    specs.insert(at, spec);
    assert(spec_views(specs@) =~= views.insert(at as int, spec@));
}

/// Resolves the CSV sources of a model. `files` holds what reading each of them gave, in the order
/// of the registers.
pub fn resolve_csv_specs(model: &DeviceModel, files: &Vec<CsvFile>) -> (resolved: Result<
    Vec<ResolvedCsvSpec>,
    SpecsError,
>)
    requires
        files@.len() == device_model::csv_registers(model.registers@).len(),
    ensures
        match resolved {
            Ok(specs) => resolved_specs(model.registers@, files@) == Ok::<
                Seq<CsvSpec>,
                SpecsErrorView,
            >(spec_views(specs@)),
            Err(error) => resolved_specs(model.registers@, files@) == Err::<
                Seq<CsvSpec>,
                SpecsErrorView,
            >(error@),
        },
{
    let regs = &model.registers;
    let ghost with_csv = device_model::csv_registers(regs@);
    let mut specs: Vec<ResolvedCsvSpec> = Vec::new();
    let mut i: usize = 0;
    let mut k: usize = 0;
    let ghost mut loaded: Seq<CsvSpec> = Seq::empty();
    proof {
        reveal(Seq::filter);
        assert(regs@.take(0).len() == 0);
        assert(spec_views(specs@) =~= ordering::sort_by(loaded, spec_key()));
    }
    while i < regs.len()
        invariant
            i <= regs.len(),
            regs == &model.registers,
            with_csv == device_model::csv_registers(regs@),
            files@.len() == with_csv.len(),
            k == device_model::csv_registers(regs@.take(i as int)).len(),
            k <= with_csv.len(),
            loaded_specs(with_csv, files@, k as nat) == Ok::<Seq<CsvSpec>, SpecsErrorView>(loaded),
            spec_views(specs@) == ordering::sort_by(loaded, spec_key()),
        decreases regs.len() - i,
    {
        let reg = &regs[i];
        if let Some(csv) = &reg.csv {
            proof {
                lemma_csv_register_at(regs@, i as int);
            }
            let file = &files[k];
            match load_csv_samples(file) {
                Ok(samples) => {
                    let data = if csv.mode == CsvModeDef::Embedded { samples } else { Vec::new() };
                    let spec = ResolvedCsvSpec { addr: reg.addr, mode: csv.mode, data };
                    proof {
                        assert(spec@.data =~= kept_samples(csv.mode, file_samples(file@)->Ok_0));
                        let before = loaded;
                        loaded = loaded.push(spec@);
                        assert(loaded.drop_last() =~= before);
                    }
                    insert_spec(&mut specs, spec);
                },
                Err(error) => {
                    proof {
                        lemma_load_failure_stands(with_csv, files@, k as nat + 1, with_csv.len());
                    }
                    return Err(
                        SpecsError::Load { addr: reg.addr, path: file.path.clone(), error },
                    );
                },
            }
            k = k + 1;
        } else {
            proof {
                lemma_other_register_at(regs@, i as int);
            }
        }
        i = i + 1;
    }
    assert(regs@.take(regs.len() as int) =~= regs@);
    match enforce_embedded_csv_budget(&specs) {
        Ok(_) => Ok(specs),
        Err(excess) => Err(SpecsError::Budget { excess }),
    }
}

}
