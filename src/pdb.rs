//! Atom records from PDB text: fixed-column parsing, residue
//! classification, filtering, and the radius table. Text is handled as
//! ASCII bytes, one `Vec<u8>` per line.
use vstd::prelude::*;

verus! {

/// Which residue kinds to leave out.
#[derive(Clone, Copy, Debug, Default)]
pub struct Filters {
    pub exclude_water: bool,
    pub exclude_ions: bool,
    pub exclude_ligands: bool,
    pub exclude_hetatm: bool,
    pub exclude_nucleic_acids: bool,
    pub exclude_amino_acids: bool,
}

/// Parsing options: united-atom radii (rather than explicit-hydrogen ones)
/// and residue filters.
#[derive(Clone, Copy, Debug)]
pub struct PdbOptions {
    pub use_united: bool,
    pub filters: Filters,
}

impl Default for PdbOptions {
    fn default() -> (r: PdbOptions)
        ensures
            r.use_united,
            !r.filters.exclude_water && !r.filters.exclude_ions && !r.filters.exclude_ligands
                && !r.filters.exclude_hetatm && !r.filters.exclude_nucleic_acids && !r.filters.exclude_amino_acids,
    {
        PdbOptions {
            use_united: true,
            filters: Filters {
                exclude_water: false,
                exclude_ions: false,
                exclude_ligands: false,
                exclude_hetatm: false,
                exclude_nucleic_acids: false,
                exclude_amino_acids: false,
            },
        }
    }
}

/// Each vector holds the matching name.
pub open spec fn names_match(v: Seq<Vec<u8>>, names: Seq<Seq<u8>>) -> bool {
    v.len() == names.len() && forall|i: int| 0 <= i < v.len() ==> #[trigger] v[i]@ == names[i]
}

/// Whether `s` is one of `names`.
pub open spec fn in_names(names: Seq<Seq<u8>>, s: Seq<u8>) -> bool {
    exists|i: int| 0 <= i < names.len() && #[trigger] names[i] == s
}

/// Residue names of water.
pub open spec fn water_names() -> Seq<Seq<u8>> {
    seq![
        seq![72u8, 79u8, 72u8],  // HOH
        seq![72u8, 50u8, 79u8],  // H2O
        seq![68u8, 79u8, 68u8],  // DOD
        seq![87u8, 65u8, 84u8],  // WAT
        seq![83u8, 79u8, 76u8],  // SOL
        seq![84u8, 73u8, 80u8],  // TIP
        seq![84u8, 73u8, 80u8, 51u8],  // TIP3
        seq![84u8, 73u8, 80u8, 51u8, 80u8],  // TIP3P
        seq![84u8, 73u8, 80u8, 52u8],  // TIP4
        seq![84u8, 73u8, 80u8, 52u8, 80u8],  // TIP4P
        seq![84u8, 73u8, 80u8, 53u8, 80u8],  // TIP5P
        seq![83u8, 80u8, 67u8],  // SPC
        seq![79u8, 72u8, 50u8],  // OH2
    ]
}

fn water_residues() -> (r: Vec<Vec<u8>>)
    ensures
        names_match(r@, water_names()),
{
    let r = vec![
        vec![72u8, 79u8, 72u8],
        vec![72u8, 50u8, 79u8],
        vec![68u8, 79u8, 68u8],
        vec![87u8, 65u8, 84u8],
        vec![83u8, 79u8, 76u8],
        vec![84u8, 73u8, 80u8],
        vec![84u8, 73u8, 80u8, 51u8],
        vec![84u8, 73u8, 80u8, 51u8, 80u8],
        vec![84u8, 73u8, 80u8, 52u8],
        vec![84u8, 73u8, 80u8, 52u8, 80u8],
        vec![84u8, 73u8, 80u8, 53u8, 80u8],
        vec![83u8, 80u8, 67u8],
        vec![79u8, 72u8, 50u8],
    ];
    assert(r@[0]@ =~= water_names()[0]);
    assert(r@[1]@ =~= water_names()[1]);
    assert(r@[2]@ =~= water_names()[2]);
    assert(r@[3]@ =~= water_names()[3]);
    assert(r@[4]@ =~= water_names()[4]);
    assert(r@[5]@ =~= water_names()[5]);
    assert(r@[6]@ =~= water_names()[6]);
    assert(r@[7]@ =~= water_names()[7]);
    assert(r@[8]@ =~= water_names()[8]);
    assert(r@[9]@ =~= water_names()[9]);
    assert(r@[10]@ =~= water_names()[10]);
    assert(r@[11]@ =~= water_names()[11]);
    assert(r@[12]@ =~= water_names()[12]);
    r
}

/// Residue names of amino acids.
pub open spec fn amino_names() -> Seq<Seq<u8>> {
    seq![
        seq![65u8, 76u8, 65u8],  // ALA
        seq![65u8, 82u8, 71u8],  // ARG
        seq![65u8, 83u8, 78u8],  // ASN
        seq![65u8, 83u8, 80u8],  // ASP
        seq![65u8, 83u8, 88u8],  // ASX
        seq![67u8, 89u8, 83u8],  // CYS
        seq![71u8, 76u8, 78u8],  // GLN
        seq![71u8, 76u8, 85u8],  // GLU
        seq![71u8, 76u8, 88u8],  // GLX
        seq![71u8, 76u8, 89u8],  // GLY
        seq![72u8, 73u8, 83u8],  // HIS
        seq![72u8, 73u8, 68u8],  // HID
        seq![72u8, 73u8, 69u8],  // HIE
        seq![72u8, 73u8, 80u8],  // HIP
        seq![72u8, 73u8, 83u8, 78u8],  // HISN
        seq![72u8, 73u8, 83u8, 76u8],  // HISL
        seq![73u8, 76u8, 69u8],  // ILE
        seq![76u8, 69u8, 85u8],  // LEU
        seq![76u8, 89u8, 83u8],  // LYS
        seq![77u8, 69u8, 84u8],  // MET
        seq![77u8, 83u8, 69u8],  // MSE
        seq![80u8, 72u8, 69u8],  // PHE
        seq![80u8, 82u8, 79u8],  // PRO
        seq![83u8, 69u8, 82u8],  // SER
        seq![84u8, 72u8, 82u8],  // THR
        seq![84u8, 82u8, 80u8],  // TRP
        seq![84u8, 89u8, 82u8],  // TYR
        seq![86u8, 65u8, 76u8],  // VAL
        seq![83u8, 69u8, 67u8],  // SEC
        seq![80u8, 89u8, 76u8],  // PYL
        seq![65u8, 83u8, 72u8],  // ASH
        seq![71u8, 76u8, 72u8],  // GLH
    ]
}

fn amino_residues() -> (r: Vec<Vec<u8>>)
    ensures
        names_match(r@, amino_names()),
{
    let r = vec![
        vec![65u8, 76u8, 65u8],
        vec![65u8, 82u8, 71u8],
        vec![65u8, 83u8, 78u8],
        vec![65u8, 83u8, 80u8],
        vec![65u8, 83u8, 88u8],
        vec![67u8, 89u8, 83u8],
        vec![71u8, 76u8, 78u8],
        vec![71u8, 76u8, 85u8],
        vec![71u8, 76u8, 88u8],
        vec![71u8, 76u8, 89u8],
        vec![72u8, 73u8, 83u8],
        vec![72u8, 73u8, 68u8],
        vec![72u8, 73u8, 69u8],
        vec![72u8, 73u8, 80u8],
        vec![72u8, 73u8, 83u8, 78u8],
        vec![72u8, 73u8, 83u8, 76u8],
        vec![73u8, 76u8, 69u8],
        vec![76u8, 69u8, 85u8],
        vec![76u8, 89u8, 83u8],
        vec![77u8, 69u8, 84u8],
        vec![77u8, 83u8, 69u8],
        vec![80u8, 72u8, 69u8],
        vec![80u8, 82u8, 79u8],
        vec![83u8, 69u8, 82u8],
        vec![84u8, 72u8, 82u8],
        vec![84u8, 82u8, 80u8],
        vec![84u8, 89u8, 82u8],
        vec![86u8, 65u8, 76u8],
        vec![83u8, 69u8, 67u8],
        vec![80u8, 89u8, 76u8],
        vec![65u8, 83u8, 72u8],
        vec![71u8, 76u8, 72u8],
    ];
    assert(r@[0]@ =~= amino_names()[0]);
    assert(r@[1]@ =~= amino_names()[1]);
    assert(r@[2]@ =~= amino_names()[2]);
    assert(r@[3]@ =~= amino_names()[3]);
    assert(r@[4]@ =~= amino_names()[4]);
    assert(r@[5]@ =~= amino_names()[5]);
    assert(r@[6]@ =~= amino_names()[6]);
    assert(r@[7]@ =~= amino_names()[7]);
    assert(r@[8]@ =~= amino_names()[8]);
    assert(r@[9]@ =~= amino_names()[9]);
    assert(r@[10]@ =~= amino_names()[10]);
    assert(r@[11]@ =~= amino_names()[11]);
    assert(r@[12]@ =~= amino_names()[12]);
    assert(r@[13]@ =~= amino_names()[13]);
    assert(r@[14]@ =~= amino_names()[14]);
    assert(r@[15]@ =~= amino_names()[15]);
    assert(r@[16]@ =~= amino_names()[16]);
    assert(r@[17]@ =~= amino_names()[17]);
    assert(r@[18]@ =~= amino_names()[18]);
    assert(r@[19]@ =~= amino_names()[19]);
    assert(r@[20]@ =~= amino_names()[20]);
    assert(r@[21]@ =~= amino_names()[21]);
    assert(r@[22]@ =~= amino_names()[22]);
    assert(r@[23]@ =~= amino_names()[23]);
    assert(r@[24]@ =~= amino_names()[24]);
    assert(r@[25]@ =~= amino_names()[25]);
    assert(r@[26]@ =~= amino_names()[26]);
    assert(r@[27]@ =~= amino_names()[27]);
    assert(r@[28]@ =~= amino_names()[28]);
    assert(r@[29]@ =~= amino_names()[29]);
    assert(r@[30]@ =~= amino_names()[30]);
    assert(r@[31]@ =~= amino_names()[31]);
    r
}

/// Residue names of nucleic acids.
pub open spec fn nucleic_names() -> Seq<Seq<u8>> {
    seq![
        seq![65u8],  // A
        seq![67u8],  // C
        seq![71u8],  // G
        seq![85u8],  // U
        seq![73u8],  // I
        seq![84u8],  // T
        seq![68u8, 65u8],  // DA
        seq![68u8, 71u8],  // DG
        seq![68u8, 67u8],  // DC
        seq![68u8, 84u8],  // DT
        seq![68u8, 73u8],  // DI
        seq![65u8, 68u8, 69u8],  // ADE
        seq![71u8, 85u8, 65u8],  // GUA
        seq![67u8, 89u8, 84u8],  // CYT
        seq![85u8, 82u8, 73u8],  // URI
        seq![84u8, 72u8, 89u8],  // THY
        seq![80u8, 83u8, 85u8],  // PSU
        seq![79u8, 77u8, 67u8],  // OMC
        seq![79u8, 77u8, 85u8],  // OMU
        seq![79u8, 77u8, 71u8],  // OMG
        seq![53u8, 73u8, 85u8],  // 5IU
        seq![72u8, 50u8, 85u8],  // H2U
        seq![77u8, 50u8, 71u8],  // M2G
        seq![55u8, 77u8, 71u8],  // 7MG
        seq![49u8, 77u8, 65u8],  // 1MA
        seq![49u8, 77u8, 71u8],  // 1MG
        seq![50u8, 77u8, 71u8],  // 2MG
    ]
}

fn nucleic_residues() -> (r: Vec<Vec<u8>>)
    ensures
        names_match(r@, nucleic_names()),
{
    let r = vec![
        vec![65u8],
        vec![67u8],
        vec![71u8],
        vec![85u8],
        vec![73u8],
        vec![84u8],
        vec![68u8, 65u8],
        vec![68u8, 71u8],
        vec![68u8, 67u8],
        vec![68u8, 84u8],
        vec![68u8, 73u8],
        vec![65u8, 68u8, 69u8],
        vec![71u8, 85u8, 65u8],
        vec![67u8, 89u8, 84u8],
        vec![85u8, 82u8, 73u8],
        vec![84u8, 72u8, 89u8],
        vec![80u8, 83u8, 85u8],
        vec![79u8, 77u8, 67u8],
        vec![79u8, 77u8, 85u8],
        vec![79u8, 77u8, 71u8],
        vec![53u8, 73u8, 85u8],
        vec![72u8, 50u8, 85u8],
        vec![77u8, 50u8, 71u8],
        vec![55u8, 77u8, 71u8],
        vec![49u8, 77u8, 65u8],
        vec![49u8, 77u8, 71u8],
        vec![50u8, 77u8, 71u8],
    ];
    assert(r@[0]@ =~= nucleic_names()[0]);
    assert(r@[1]@ =~= nucleic_names()[1]);
    assert(r@[2]@ =~= nucleic_names()[2]);
    assert(r@[3]@ =~= nucleic_names()[3]);
    assert(r@[4]@ =~= nucleic_names()[4]);
    assert(r@[5]@ =~= nucleic_names()[5]);
    assert(r@[6]@ =~= nucleic_names()[6]);
    assert(r@[7]@ =~= nucleic_names()[7]);
    assert(r@[8]@ =~= nucleic_names()[8]);
    assert(r@[9]@ =~= nucleic_names()[9]);
    assert(r@[10]@ =~= nucleic_names()[10]);
    assert(r@[11]@ =~= nucleic_names()[11]);
    assert(r@[12]@ =~= nucleic_names()[12]);
    assert(r@[13]@ =~= nucleic_names()[13]);
    assert(r@[14]@ =~= nucleic_names()[14]);
    assert(r@[15]@ =~= nucleic_names()[15]);
    assert(r@[16]@ =~= nucleic_names()[16]);
    assert(r@[17]@ =~= nucleic_names()[17]);
    assert(r@[18]@ =~= nucleic_names()[18]);
    assert(r@[19]@ =~= nucleic_names()[19]);
    assert(r@[20]@ =~= nucleic_names()[20]);
    assert(r@[21]@ =~= nucleic_names()[21]);
    assert(r@[22]@ =~= nucleic_names()[22]);
    assert(r@[23]@ =~= nucleic_names()[23]);
    assert(r@[24]@ =~= nucleic_names()[24]);
    assert(r@[25]@ =~= nucleic_names()[25]);
    assert(r@[26]@ =~= nucleic_names()[26]);
    r
}

/// Residue names of ions.
pub open spec fn ion_residue_names() -> Seq<Seq<u8>> {
    seq![
        seq![78u8, 65u8],  // NA
        seq![75u8],  // K
        seq![77u8, 71u8],  // MG
        seq![77u8, 78u8],  // MN
        seq![70u8, 69u8],  // FE
        seq![90u8, 78u8],  // ZN
        seq![67u8, 85u8],  // CU
        seq![67u8, 65u8],  // CA
        seq![67u8, 76u8],  // CL
        seq![66u8, 82u8],  // BR
        seq![73u8],  // I
        seq![76u8, 73u8],  // LI
        seq![67u8, 79u8],  // CO
        seq![78u8, 73u8],  // NI
        seq![72u8, 71u8],  // HG
        seq![67u8, 68u8],  // CD
        seq![83u8, 82u8],  // SR
        seq![67u8, 83u8],  // CS
        seq![66u8, 65u8],  // BA
        seq![89u8, 66u8],  // YB
        seq![77u8, 79u8],  // MO
        seq![82u8, 85u8],  // RU
        seq![79u8, 83u8],  // OS
        seq![73u8, 82u8],  // IR
        seq![65u8, 85u8],  // AU
        seq![65u8, 71u8],  // AG
        seq![80u8, 84u8],  // PT
        seq![84u8, 73u8],  // TI
        seq![65u8, 76u8],  // AL
        seq![71u8, 65u8],  // GA
        seq![86u8],  // V
        seq![87u8],  // W
        seq![90u8, 78u8, 50u8],  // ZN2
        seq![70u8, 69u8, 50u8],  // FE2
    ]
}

fn ion_residues() -> (r: Vec<Vec<u8>>)
    ensures
        names_match(r@, ion_residue_names()),
{
    let r = vec![
        vec![78u8, 65u8],
        vec![75u8],
        vec![77u8, 71u8],
        vec![77u8, 78u8],
        vec![70u8, 69u8],
        vec![90u8, 78u8],
        vec![67u8, 85u8],
        vec![67u8, 65u8],
        vec![67u8, 76u8],
        vec![66u8, 82u8],
        vec![73u8],
        vec![76u8, 73u8],
        vec![67u8, 79u8],
        vec![78u8, 73u8],
        vec![72u8, 71u8],
        vec![67u8, 68u8],
        vec![83u8, 82u8],
        vec![67u8, 83u8],
        vec![66u8, 65u8],
        vec![89u8, 66u8],
        vec![77u8, 79u8],
        vec![82u8, 85u8],
        vec![79u8, 83u8],
        vec![73u8, 82u8],
        vec![65u8, 85u8],
        vec![65u8, 71u8],
        vec![80u8, 84u8],
        vec![84u8, 73u8],
        vec![65u8, 76u8],
        vec![71u8, 65u8],
        vec![86u8],
        vec![87u8],
        vec![90u8, 78u8, 50u8],
        vec![70u8, 69u8, 50u8],
    ];
    assert(r@[0]@ =~= ion_residue_names()[0]);
    assert(r@[1]@ =~= ion_residue_names()[1]);
    assert(r@[2]@ =~= ion_residue_names()[2]);
    assert(r@[3]@ =~= ion_residue_names()[3]);
    assert(r@[4]@ =~= ion_residue_names()[4]);
    assert(r@[5]@ =~= ion_residue_names()[5]);
    assert(r@[6]@ =~= ion_residue_names()[6]);
    assert(r@[7]@ =~= ion_residue_names()[7]);
    assert(r@[8]@ =~= ion_residue_names()[8]);
    assert(r@[9]@ =~= ion_residue_names()[9]);
    assert(r@[10]@ =~= ion_residue_names()[10]);
    assert(r@[11]@ =~= ion_residue_names()[11]);
    assert(r@[12]@ =~= ion_residue_names()[12]);
    assert(r@[13]@ =~= ion_residue_names()[13]);
    assert(r@[14]@ =~= ion_residue_names()[14]);
    assert(r@[15]@ =~= ion_residue_names()[15]);
    assert(r@[16]@ =~= ion_residue_names()[16]);
    assert(r@[17]@ =~= ion_residue_names()[17]);
    assert(r@[18]@ =~= ion_residue_names()[18]);
    assert(r@[19]@ =~= ion_residue_names()[19]);
    assert(r@[20]@ =~= ion_residue_names()[20]);
    assert(r@[21]@ =~= ion_residue_names()[21]);
    assert(r@[22]@ =~= ion_residue_names()[22]);
    assert(r@[23]@ =~= ion_residue_names()[23]);
    assert(r@[24]@ =~= ion_residue_names()[24]);
    assert(r@[25]@ =~= ion_residue_names()[25]);
    assert(r@[26]@ =~= ion_residue_names()[26]);
    assert(r@[27]@ =~= ion_residue_names()[27]);
    assert(r@[28]@ =~= ion_residue_names()[28]);
    assert(r@[29]@ =~= ion_residue_names()[29]);
    assert(r@[30]@ =~= ion_residue_names()[30]);
    assert(r@[31]@ =~= ion_residue_names()[31]);
    assert(r@[32]@ =~= ion_residue_names()[32]);
    assert(r@[33]@ =~= ion_residue_names()[33]);
    r
}

/// Element symbols of ions.
pub open spec fn ion_element_names() -> Seq<Seq<u8>> {
    seq![
        seq![78u8, 65u8],  // NA
        seq![75u8],  // K
        seq![77u8, 71u8],  // MG
        seq![77u8, 78u8],  // MN
        seq![70u8, 69u8],  // FE
        seq![90u8, 78u8],  // ZN
        seq![67u8, 85u8],  // CU
        seq![67u8, 65u8],  // CA
        seq![67u8, 76u8],  // CL
        seq![66u8, 82u8],  // BR
        seq![73u8],  // I
        seq![76u8, 73u8],  // LI
        seq![67u8, 79u8],  // CO
        seq![78u8, 73u8],  // NI
        seq![72u8, 71u8],  // HG
        seq![67u8, 68u8],  // CD
        seq![83u8, 82u8],  // SR
        seq![67u8, 83u8],  // CS
        seq![66u8, 65u8],  // BA
        seq![89u8, 66u8],  // YB
        seq![77u8, 79u8],  // MO
        seq![82u8, 85u8],  // RU
        seq![79u8, 83u8],  // OS
        seq![73u8, 82u8],  // IR
        seq![65u8, 85u8],  // AU
        seq![65u8, 71u8],  // AG
        seq![80u8, 84u8],  // PT
        seq![84u8, 73u8],  // TI
        seq![65u8, 76u8],  // AL
        seq![71u8, 65u8],  // GA
        seq![86u8],  // V
        seq![87u8],  // W
    ]
}

fn ion_elements() -> (r: Vec<Vec<u8>>)
    ensures
        names_match(r@, ion_element_names()),
{
    let r = vec![
        vec![78u8, 65u8],
        vec![75u8],
        vec![77u8, 71u8],
        vec![77u8, 78u8],
        vec![70u8, 69u8],
        vec![90u8, 78u8],
        vec![67u8, 85u8],
        vec![67u8, 65u8],
        vec![67u8, 76u8],
        vec![66u8, 82u8],
        vec![73u8],
        vec![76u8, 73u8],
        vec![67u8, 79u8],
        vec![78u8, 73u8],
        vec![72u8, 71u8],
        vec![67u8, 68u8],
        vec![83u8, 82u8],
        vec![67u8, 83u8],
        vec![66u8, 65u8],
        vec![89u8, 66u8],
        vec![77u8, 79u8],
        vec![82u8, 85u8],
        vec![79u8, 83u8],
        vec![73u8, 82u8],
        vec![65u8, 85u8],
        vec![65u8, 71u8],
        vec![80u8, 84u8],
        vec![84u8, 73u8],
        vec![65u8, 76u8],
        vec![71u8, 65u8],
        vec![86u8],
        vec![87u8],
    ];
    assert(r@[0]@ =~= ion_element_names()[0]);
    assert(r@[1]@ =~= ion_element_names()[1]);
    assert(r@[2]@ =~= ion_element_names()[2]);
    assert(r@[3]@ =~= ion_element_names()[3]);
    assert(r@[4]@ =~= ion_element_names()[4]);
    assert(r@[5]@ =~= ion_element_names()[5]);
    assert(r@[6]@ =~= ion_element_names()[6]);
    assert(r@[7]@ =~= ion_element_names()[7]);
    assert(r@[8]@ =~= ion_element_names()[8]);
    assert(r@[9]@ =~= ion_element_names()[9]);
    assert(r@[10]@ =~= ion_element_names()[10]);
    assert(r@[11]@ =~= ion_element_names()[11]);
    assert(r@[12]@ =~= ion_element_names()[12]);
    assert(r@[13]@ =~= ion_element_names()[13]);
    assert(r@[14]@ =~= ion_element_names()[14]);
    assert(r@[15]@ =~= ion_element_names()[15]);
    assert(r@[16]@ =~= ion_element_names()[16]);
    assert(r@[17]@ =~= ion_element_names()[17]);
    assert(r@[18]@ =~= ion_element_names()[18]);
    assert(r@[19]@ =~= ion_element_names()[19]);
    assert(r@[20]@ =~= ion_element_names()[20]);
    assert(r@[21]@ =~= ion_element_names()[21]);
    assert(r@[22]@ =~= ion_element_names()[22]);
    assert(r@[23]@ =~= ion_element_names()[23]);
    assert(r@[24]@ =~= ion_element_names()[24]);
    assert(r@[25]@ =~= ion_element_names()[25]);
    assert(r@[26]@ =~= ion_element_names()[26]);
    assert(r@[27]@ =~= ion_element_names()[27]);
    assert(r@[28]@ =~= ion_element_names()[28]);
    assert(r@[29]@ =~= ion_element_names()[29]);
    assert(r@[30]@ =~= ion_element_names()[30]);
    assert(r@[31]@ =~= ion_element_names()[31]);
    r
}

/// Whether `name` is one of the entries of `list`.
fn name_in(list: &Vec<Vec<u8>>, name: &[u8]) -> (r: bool)
    ensures
        r == exists|i: int| 0 <= i < list@.len() && #[trigger] list@[i]@ == name@,
{
    let mut i: usize = 0;
    while i < list.len()
        invariant
            0 <= i <= list.len(),
            forall|t: int| 0 <= t < i ==> #[trigger] list@[t]@ != name@,
        decreases list.len() - i,
    {
        if bytes_eq(list[i].as_slice(), name) {
            return true;
        }
        i = i + 1;
    }
    false
}

/// Whether two byte strings are equal.
pub fn bytes_eq(a: &[u8], b: &[u8]) -> (r: bool)
    ensures
        r == (a@ == b@),
{
    if a.len() != b.len() {
        return false;
    }
    let mut i: usize = 0;
    while i < a.len()
        invariant
            a.len() == b.len(),
            0 <= i <= a.len(),
            forall|t: int| 0 <= t < i ==> a@[t] == b@[t],
        decreases a.len() - i,
    {
        if a[i] != b[i] {
            return false;
        }
        i = i + 1;
    }
    assert(a@ =~= b@);
    true
}

/// ASCII whitespace: space, tab, line feed, vertical tab, form feed, return.
pub open spec fn is_space(b: u8) -> bool {
    b == 32 || (9 <= b <= 13)
}

/// ASCII upper case of one byte.
pub open spec fn upper_byte(b: u8) -> u8 {
    if 97 <= b <= 122 {
        (b - 32) as u8
    } else {
        b
    }
}

/// ASCII upper case of a byte string.
pub open spec fn upper(s: Seq<u8>) -> Seq<u8> {
    Seq::new(s.len(), |i: int| upper_byte(s[i]))
}

/// Index of the first non-space byte at or after `from` (or the length).
pub open spec fn first_non_space(s: Seq<u8>, from: int) -> int
    decreases s.len() - from,
{
    if from >= s.len() {
        s.len() as int
    } else if is_space(s[from]) {
        first_non_space(s, from + 1)
    } else {
        from
    }
}

/// One past the last non-space byte before `to` (or zero).
pub open spec fn last_non_space_end(s: Seq<u8>, to: int) -> int
    decreases to,
{
    if to <= 0 {
        0
    } else if is_space(s[to - 1]) {
        last_non_space_end(s, to - 1)
    } else {
        to
    }
}

/// `s` without leading and trailing whitespace.
pub open spec fn trim_spec(s: Seq<u8>) -> Seq<u8> {
    let a = first_non_space(s, 0);
    let b = last_non_space_end(s, s.len() as int);
    if a < b {
        s.subrange(a, b)
    } else {
        Seq::empty()
    }
}

/// `s` with every space byte removed.
pub open spec fn remove_spaces(s: Seq<u8>) -> Seq<u8>
    decreases s.len(),
{
    if s.len() == 0 {
        s
    } else if s.last() == 32 {
        remove_spaces(s.drop_last())
    } else {
        remove_spaces(s.drop_last()).push(s.last())
    }
}

/// The `len` bytes of `line` from `start`, cut at the line's end.
pub open spec fn field_spec(line: Seq<u8>, start: int, len: int) -> Seq<u8> {
    if line.len() <= start {
        Seq::empty()
    } else if start + len < line.len() {
        line.subrange(start, start + len)
    } else {
        line.subrange(start, line.len() as int)
    }
}

/// Strip leading and trailing whitespace.
fn trim(s: &[u8]) -> (r: Vec<u8>)
    ensures
        r@ == trim_spec(s@),
{
    let n = s.len();
    let mut a: usize = 0;
    while a < n && is_space_exec(s[a])
        invariant
            0 <= a <= n,
            n == s@.len(),
            first_non_space(s@, 0) == first_non_space(s@, a as int),
        decreases n - a,
    {
        a = a + 1;
    }
    let mut b: usize = n;
    while b > a && is_space_exec(s[b - 1])
        invariant
            a <= b <= n,
            n == s@.len(),
            last_non_space_end(s@, n as int) == last_non_space_end(s@, b as int),
            a == first_non_space(s@, 0),
            forall|t: int| b <= t < n ==> is_space(#[trigger] s@[t]),
        decreases b,
    {
        b = b - 1;
    }
    proof {
        if a < n {
            assert(!is_space(s@[a as int]));
            if b == a {
                assert(false);
            }
            assert(last_non_space_end(s@, b as int) == b);
        } else {
            assert(b == a);
            lemma_last_end_bound(s@, b as int);
        }
    }
    let mut r: Vec<u8> = Vec::new();
    let mut i: usize = a;
    while i < b
        invariant
            a <= i <= b,
            b <= n,
            n == s@.len(),
            r@ == s@.subrange(a as int, i as int),
        decreases b - i,
    {
        r.push(s[i]);
        i = i + 1;
        assert(r@ =~= s@.subrange(a as int, i as int));
    }
    r
}

proof fn lemma_last_end_bound(s: Seq<u8>, to: int)
    ensures
        last_non_space_end(s, to) <= if to < 0 { 0 } else { to },
    decreases to,
{
    if to > 0 {
        lemma_last_end_bound(s, to - 1);
    }
}

fn is_space_exec(b: u8) -> (r: bool)
    ensures
        r == is_space(b),
{
    b == 32 || (9 <= b && b <= 13)
}

fn upper_byte_exec(b: u8) -> (r: u8)
    ensures
        r == upper_byte(b),
{
    if 97 <= b && b <= 122 {
        b - 32
    } else {
        b
    }
}

/// ASCII upper case.
fn to_upper(s: &[u8]) -> (r: Vec<u8>)
    ensures
        r@ == upper(s@),
{
    let mut r: Vec<u8> = Vec::new();
    let mut i: usize = 0;
    while i < s.len()
        invariant
            0 <= i <= s.len(),
            r@ == upper(s@.subrange(0, i as int)),
        decreases s.len() - i,
    {
        r.push(upper_byte_exec(s[i]));
        i = i + 1;
        assert(r@ =~= upper(s@.subrange(0, i as int)));
    }
    assert(s@.subrange(0, s.len() as int) =~= s@);
    r
}

/// The fixed-width field of `len` bytes at `start`, cut at the line's end.
fn get_field(line: &[u8], start: usize, len: usize) -> (r: Vec<u8>)
    requires
        start + len <= usize::MAX,
    ensures
        r@ == field_spec(line@, start as int, len as int),
{
    let mut r: Vec<u8> = Vec::new();
    if line.len() <= start {
        return r;
    }
    let end = if start + len < line.len() {
        start + len
    } else {
        line.len()
    };
    let mut i: usize = start;
    while i < end
        invariant
            start <= i <= end,
            end <= line.len(),
            r@ == line@.subrange(start as int, i as int),
        decreases end - i,
    {
        r.push(line[i]);
        i = i + 1;
        assert(r@ =~= line@.subrange(start as int, i as int));
    }
    r
}

/// ASCII digit.
pub open spec fn is_digit(b: u8) -> bool {
    48 <= b <= 57
}

/// Byte `i` of `s`, or a space past its end.
pub open spec fn byte_or_space(s: Seq<u8>, i: int) -> u8 {
    if i < s.len() {
        s[i]
    } else {
        32
    }
}

/// Atom name as the radius table sees it: hydrogen names (a blank or digit
/// then `H`/`D`, or `H` not followed by `G`) become `H`; any other name is
/// trimmed with its spaces removed.
pub open spec fn normalize_spec(raw: Seq<u8>) -> Seq<u8> {
    let c0 = byte_or_space(raw, 0);
    let c1 = byte_or_space(raw, 1);
    let first_blank_digit = c0 == 32 || is_digit(c0);
    let second_h_like = upper_byte(c1) == 72 || upper_byte(c1) == 68;
    let first_h = upper_byte(c0) == 72;
    let second_g = upper_byte(c1) == 71;
    if (first_blank_digit && second_h_like) || (first_h && !second_g) {
        seq![72u8]
    } else {
        remove_spaces(trim_spec(raw))
    }
}

/// Whether `s` begins with `p`.
pub open spec fn starts_with(s: Seq<u8>, p: Seq<u8>) -> bool {
    s.len() >= p.len() && s.subrange(0, p.len() as int) == p
}

/// One of the bases A, C, G, U, I, T.
pub open spec fn is_base(b: u8) -> bool {
    b == 65 || b == 67 || b == 71 || b == 85 || b == 73 || b == 84
}

/// A one-letter base, or `D` and a base.
pub open spec fn looks_like_nucleic_spec(name: Seq<u8>) -> bool {
    (name.len() == 1 && is_base(name[0])) || (name.len() == 2 && name[0] == 68 && is_base(name[1]))
}

/// Water: a listed name, or a name starting with `HOH` or `TIP` (upper case).
pub open spec fn is_water_spec(name: Seq<u8>) -> bool {
    let u = upper(name);
    in_names(water_names(), u) || starts_with(u, seq![72u8, 79u8, 72u8]) || starts_with(u, seq![84u8, 73u8, 80u8])
}

/// Amino acid: a listed name (upper case).
pub open spec fn is_amino_spec(name: Seq<u8>) -> bool {
    in_names(amino_names(), upper(name))
}

/// Nucleic acid: a listed name, or one that looks like a base (upper case).
pub open spec fn is_nucleic_spec(name: Seq<u8>) -> bool {
    in_names(nucleic_names(), upper(name)) || looks_like_nucleic_spec(upper(name))
}

fn remove_spaces_exec(s: &[u8]) -> (r: Vec<u8>)
    ensures
        r@ == remove_spaces(s@),
{
    let mut r: Vec<u8> = Vec::new();
    let mut i: usize = 0;
    while i < s.len()
        invariant
            0 <= i <= s.len(),
            r@ == remove_spaces(s@.subrange(0, i as int)),
        decreases s.len() - i,
    {
        proof {
            assert(s@.subrange(0, i + 1).drop_last() =~= s@.subrange(0, i as int));
        }
        if s[i] != 32 {
            r.push(s[i]);
        }
        i = i + 1;
    }
    assert(s@.subrange(0, s.len() as int) =~= s@);
    r
}

/// Normalize a raw four-byte atom name field (see `normalize_spec`).
fn normalize_atom_name(raw: &[u8]) -> (r: Vec<u8>)
    ensures
        r@ == normalize_spec(raw@),
{
    let c0 = if raw.len() > 0 {
        raw[0]
    } else {
        32
    };
    let c1 = if raw.len() > 1 {
        raw[1]
    } else {
        32
    };
    let c0_upper = upper_byte_exec(c0);
    let c1_upper = upper_byte_exec(c1);
    let first_blank_digit = c0 == 32 || (48 <= c0 && c0 <= 57);
    let second_h_like = c1_upper == 72 || c1_upper == 68;
    if first_blank_digit && second_h_like {
        let r = vec![72u8];
        assert(r@ =~= seq![72u8]);
        return r;
    }
    let first_h = c0_upper == 72;
    let second_g = c1_upper == 71;
    if first_h && !second_g {
        let r = vec![72u8];
        assert(r@ =~= seq![72u8]);
        return r;
    }
    let trimmed = trim(raw);
    remove_spaces_exec(trimmed.as_slice())
}

fn is_base_exec(b: u8) -> (r: bool)
    ensures
        r == is_base(b),
{
    b == 65 || b == 67 || b == 71 || b == 85 || b == 73 || b == 84
}

/// Whether an upper-case name looks like a base (see
/// `looks_like_nucleic_spec`).
fn looks_like_nucleic(name: &[u8]) -> (r: bool)
    ensures
        r == looks_like_nucleic_spec(name@),
{
    if name.len() == 1 {
        return is_base_exec(name[0]);
    }
    if name.len() == 2 && name[0] == 68 {
        return is_base_exec(name[1]);
    }
    false
}

/// Whether `s` begins with `p`.
fn starts_with_exec(s: &[u8], p: &[u8]) -> (r: bool)
    ensures
        r == starts_with(s@, p@),
{
    if s.len() < p.len() {
        return false;
    }
    let mut i: usize = 0;
    while i < p.len()
        invariant
            p.len() <= s.len(),
            0 <= i <= p.len(),
            forall|t: int| 0 <= t < i ==> s@[t] == p@[t],
        decreases p.len() - i,
    {
        if s[i] != p[i] {
            assert(s@.subrange(0, p.len() as int)[i as int] != p@[i as int]);
            return false;
        }
        i = i + 1;
    }
    assert(s@.subrange(0, p.len() as int) =~= p@);
    true
}

/// Whether `list` (matching `names`) holds `name`.
fn listed(list: &Vec<Vec<u8>>, names: Ghost<Seq<Seq<u8>>>, name: &[u8]) -> (r: bool)
    requires
        names_match(list@, names@),
    ensures
        r == in_names(names@, name@),
{
    let r = name_in(list, name);
    proof {
        if r {
            let i = choose|i: int| 0 <= i < list@.len() && #[trigger] list@[i]@ == name@;
            assert(names@[i] == name@);
        }
        if in_names(names@, name@) {
            let i = choose|i: int| 0 <= i < names@.len() && #[trigger] names@[i] == name@;
            assert(list@[i]@ == name@);
        }
    }
    r
}

/// Whether a residue name denotes water.
fn is_water(name: &[u8]) -> (r: bool)
    ensures
        r == is_water_spec(name@),
{
    let upper_name = to_upper(name);
    if listed(&water_residues(), Ghost(water_names()), upper_name.as_slice()) {
        return true;
    }
    let hoh = vec![72u8, 79u8, 72u8];
    let tip = vec![84u8, 73u8, 80u8];
    proof {
        assert(hoh@ =~= seq![72u8, 79u8, 72u8]);
        assert(tip@ =~= seq![84u8, 73u8, 80u8]);
    }
    starts_with_exec(upper_name.as_slice(), hoh.as_slice()) || starts_with_exec(upper_name.as_slice(), tip.as_slice())
}

/// Whether a residue name denotes an amino acid.
fn is_amino(name: &[u8]) -> (r: bool)
    ensures
        r == is_amino_spec(name@),
{
    let upper_name = to_upper(name);
    listed(&amino_residues(), Ghost(amino_names()), upper_name.as_slice())
}

/// Whether a residue name denotes a nucleic acid.
fn is_nucleic(name: &[u8]) -> (r: bool)
    ensures
        r == is_nucleic_spec(name@),
{
    let upper_name = to_upper(name);
    listed(&nucleic_residues(), Ghost(nucleic_names()), upper_name.as_slice()) || looks_like_nucleic(
        upper_name.as_slice(),
    )
}

/// One ATOM or HETATM record, its fields as text.
pub struct AtomRecord {
    pub x: Vec<u8>,
    pub y: Vec<u8>,
    pub z: Vec<u8>,
    pub residue: Vec<u8>,
    pub atom: Vec<u8>,
    pub resnum: Vec<u8>,
    pub chain: Vec<u8>,
    pub element: Vec<u8>,
    pub record: Vec<u8>,
}

/// The fields of an `AtomRecord` as byte sequences.
pub struct RecordView {
    pub x: Seq<u8>,
    pub y: Seq<u8>,
    pub z: Seq<u8>,
    pub residue: Seq<u8>,
    pub atom: Seq<u8>,
    pub resnum: Seq<u8>,
    pub chain: Seq<u8>,
    pub element: Seq<u8>,
    pub record: Seq<u8>,
}

impl View for AtomRecord {
    type V = RecordView;

    open spec fn view(&self) -> RecordView {
        RecordView {
            x: self.x@,
            y: self.y@,
            z: self.z@,
            residue: self.residue@,
            atom: self.atom@,
            resnum: self.resnum@,
            chain: self.chain@,
            element: self.element@,
            record: self.record@,
        }
    }
}

/// `ATOM`
pub open spec fn atom_tag() -> Seq<u8> {
    seq![65u8, 84u8, 79u8, 77u8]
}

/// `HETATM`
pub open spec fn hetatm_tag() -> Seq<u8> {
    seq![72u8, 69u8, 84u8, 65u8, 84u8, 77u8]
}

/// The record that a line holds: a line of at least six bytes whose first
/// six, trimmed and in upper case, read `ATOM` or `HETATM`, with non-blank
/// coordinate fields (columns 31-38, 39-46, 47-54).
pub open spec fn parse_line(line: Seq<u8>) -> Option<RecordView> {
    let record = upper(trim_spec(line.subrange(0, 6)));
    let x = field_spec(line, 30, 8);
    let y = field_spec(line, 38, 8);
    let z = field_spec(line, 46, 8);
    let atom = normalize_spec(field_spec(line, 12, 4));
    let element = trim_spec(field_spec(line, 76, 2));
    if line.len() < 6 || (record != atom_tag() && record != hetatm_tag()) || trim_spec(x).len() == 0
        || trim_spec(y).len() == 0 || trim_spec(z).len() == 0 {
        None
    } else {
        Some(
            RecordView {
                x,
                y,
                z,
                residue: trim_spec(field_spec(line, 17, 3)),
                atom,
                resnum: trim_spec(field_spec(line, 22, 4)),
                chain: trim_spec(field_spec(line, 21, 1)),
                element: if element.len() == 0 && atom.len() > 0 {
                    seq![upper_byte(atom[0])]
                } else {
                    element
                },
                record,
            },
        )
    }
}

/// Records of the lines that hold one, in order.
pub open spec fn parse_lines(lines: Seq<Seq<u8>>) -> Seq<RecordView>
    decreases lines.len(),
{
    if lines.len() == 0 {
        Seq::empty()
    } else {
        let prev = parse_lines(lines.drop_last());
        match parse_line(lines.last()) {
            Some(r) => prev.push(r),
            None => prev,
        }
    }
}

/// Views of a sequence of lines.
pub open spec fn line_views(lines: Seq<Vec<u8>>) -> Seq<Seq<u8>> {
    Seq::new(lines.len(), |i: int| lines[i]@)
}

/// Views of a sequence of records.
pub open spec fn record_views(recs: Seq<AtomRecord>) -> Seq<RecordView> {
    Seq::new(recs.len(), |i: int| recs[i]@)
}

#[verifier::spinoff_prover]
#[verifier::rlimit(40)]
fn parse_record(line: &[u8]) -> (r: Option<AtomRecord>)
    ensures
        match r {
            Some(rec) => parse_line(line@) == Some(rec@),
            None => parse_line(line@) is None,
        },
{
    if line.len() < 6 {
        return None;
    }
    let head = get_field(line, 0, 6);
    assert(head@ == line@.subrange(0, 6));
    let record = to_upper(trim(head.as_slice()).as_slice());
    let atom_tag_v = vec![65u8, 84u8, 79u8, 77u8];
    let hetatm_tag_v = vec![72u8, 69u8, 84u8, 65u8, 84u8, 77u8];
    proof {
        assert(atom_tag_v@ =~= atom_tag());
        assert(hetatm_tag_v@ =~= hetatm_tag());
    }
    if !bytes_eq(record.as_slice(), atom_tag_v.as_slice()) && !bytes_eq(record.as_slice(), hetatm_tag_v.as_slice()) {
        return None;
    }
    let raw_x = get_field(line, 30, 8);
    let raw_y = get_field(line, 38, 8);
    let raw_z = get_field(line, 46, 8);
    if trim(raw_x.as_slice()).len() == 0 || trim(raw_y.as_slice()).len() == 0 || trim(raw_z.as_slice()).len() == 0 {
        return None;
    }
    let residue = trim(get_field(line, 17, 3).as_slice());
    let atom_name = normalize_atom_name(get_field(line, 12, 4).as_slice());
    let resnum = trim(get_field(line, 22, 4).as_slice());
    let chain = trim(get_field(line, 21, 1).as_slice());
    let mut element = trim(get_field(line, 76, 2).as_slice());
    if element.len() == 0 && atom_name.len() > 0 {
        element = vec![upper_byte_exec(atom_name[0])];
        assert(element@ =~= seq![upper_byte(atom_name@[0])]);
    }
    let rec = AtomRecord {
        x: raw_x,
        y: raw_y,
        z: raw_z,
        residue,
        atom: atom_name,
        resnum,
        chain,
        element,
        record,
    };
    Some(rec)
}

/// Parse the ATOM and HETATM records of the lines (see `parse_line`).
fn parse_atom_records(lines: &[Vec<u8>]) -> (r: Vec<AtomRecord>)
    ensures
        record_views(r@) == parse_lines(line_views(lines@)),
{
    let mut atoms: Vec<AtomRecord> = Vec::new();
    let mut i: usize = 0;
    while i < lines.len()
        invariant
            0 <= i <= lines.len(),
            record_views(atoms@) == parse_lines(line_views(lines@.subrange(0, i as int))),
        decreases lines.len() - i,
    {
        proof {
            assert(line_views(lines@.subrange(0, i + 1)).drop_last() =~= line_views(lines@.subrange(0, i as int)));
            assert(line_views(lines@.subrange(0, i + 1)).last() == lines@[i as int]@);
        }
        let ghost before = atoms@;
        match parse_record(lines[i].as_slice()) {
            Some(rec) => {
                atoms.push(rec);
                assert(record_views(atoms@) =~= record_views(before).push(atoms@.last()@));
            },
            None => {},
        }
        i = i + 1;
    }
    assert(lines@.subrange(0, lines.len() as int) =~= lines@);
    atoms
}

/// Residue key `CHAIN|resnum|RESIDUE` (chain and residue in upper case).
pub open spec fn key_of(r: RecordView) -> Seq<u8> {
    upper(r.chain) + seq![124u8] + r.resnum + seq![124u8] + upper(r.residue)
}

/// Some record has key `k`.
pub open spec fn has_key(recs: Seq<RecordView>, k: Seq<u8>) -> bool
    decreases recs.len(),
{
    recs.len() > 0 && (has_key(recs.drop_last(), k) || key_of(recs.last()) == k)
}

/// Residue name of the first record with key `k`.
pub open spec fn name_for(recs: Seq<RecordView>, k: Seq<u8>) -> Seq<u8>
    decreases recs.len(),
{
    if recs.len() == 0 {
        Seq::empty()
    } else if has_key(recs.drop_last(), k) {
        name_for(recs.drop_last(), k)
    } else if key_of(recs.last()) == k {
        recs.last().residue
    } else {
        Seq::empty()
    }
}

/// Number of records with key `k`.
pub open spec fn atom_count(recs: Seq<RecordView>, k: Seq<u8>) -> nat
    decreases recs.len(),
{
    if recs.len() == 0 {
        0
    } else {
        atom_count(recs.drop_last(), k) + if key_of(recs.last()) == k {
            1nat
        } else {
            0nat
        }
    }
}

/// Some record with key `k` is an `ATOM` record.
pub open spec fn any_atom_record(recs: Seq<RecordView>, k: Seq<u8>) -> bool
    decreases recs.len(),
{
    recs.len() > 0 && (any_atom_record(recs.drop_last(), k) || (key_of(recs.last()) == k && upper(
        recs.last().record,
    ) == atom_tag()))
}

/// Every record with key `k` is a `HETATM` record.
pub open spec fn all_hetatm(recs: Seq<RecordView>, k: Seq<u8>) -> bool
    decreases recs.len(),
{
    recs.len() == 0 || (all_hetatm(recs.drop_last(), k) && (key_of(recs.last()) != k || upper(recs.last().record)
        == hetatm_tag()))
}

/// Some record with key `k` names an ion element.
pub open spec fn ion_element_present(recs: Seq<RecordView>, k: Seq<u8>) -> bool
    decreases recs.len(),
{
    recs.len() > 0 && (ion_element_present(recs.drop_last(), k) || (key_of(recs.last()) == k
        && recs.last().element.len() > 0 && in_names(ion_element_names(), upper(recs.last().element))))
}

/// Classification of the residue with key `k` among `recs`.
#[derive(Clone, Copy)]
pub struct ResidueClass {
    pub is_water: bool,
    pub is_ion: bool,
    pub is_ligand: bool,
    pub hetatm_only: bool,
    pub is_nucleic: bool,
    pub is_amino: bool,
}

/// Water, ion, ligand, HETATM-only, nucleic and amino flags of a residue:
/// a polymer residue has an `ATOM` record or an amino or nucleic name; an
/// ion has a listed ion name, or is a single atom of an ion element or
/// element name; a ligand is neither polymer, water nor ion.
pub open spec fn class_of(recs: Seq<RecordView>, k: Seq<u8>) -> ResidueClass {
    let name = name_for(recs, k);
    let polymer = any_atom_record(recs, k) || is_amino_spec(name) || is_nucleic_spec(name);
    let water = is_water_spec(name);
    let ion = is_ion_spec(name, atom_count(recs, k) as int, ion_element_present(recs, k));
    ResidueClass {
        is_water: water,
        is_ion: ion,
        is_ligand: !polymer && !water && !ion,
        hetatm_only: all_hetatm(recs, k),
        is_nucleic: is_nucleic_spec(name),
        is_amino: is_amino_spec(name),
    }
}

/// Whether `filters` leave out a residue of class `c`.
pub open spec fn filtered_spec(c: ResidueClass, f: Filters) -> bool {
    (f.exclude_water && c.is_water) || (f.exclude_ions && c.is_ion) || (f.exclude_ligands && c.is_ligand) || (
    f.exclude_hetatm && c.hetatm_only) || (f.exclude_nucleic_acids && c.is_nucleic) || (f.exclude_amino_acids
        && c.is_amino)
}

fn concat_bytes(a: &mut Vec<u8>, b: &[u8])
    ensures
        final(a)@ == old(a)@ + b@,
{
    let mut i: usize = 0;
    while i < b.len()
        invariant
            0 <= i <= b.len(),
            a@ == old(a)@ + b@.subrange(0, i as int),
        decreases b.len() - i,
    {
        a.push(b[i]);
        i = i + 1;
        assert(a@ =~= old(a)@ + b@.subrange(0, i as int));
    }
    assert(b@.subrange(0, b.len() as int) =~= b@);
}

/// The residue key of a record.
fn make_residue_key(atom: &AtomRecord) -> (r: Vec<u8>)
    ensures
        r@ == key_of(atom@),
{
    let mut r = to_upper(atom.chain.as_slice());
    r.push(124u8);
    concat_bytes(&mut r, atom.resnum.as_slice());
    r.push(124u8);
    let up = to_upper(atom.residue.as_slice());
    concat_bytes(&mut r, up.as_slice());
    assert(r@ =~= key_of(atom@));
    r
}

/// Some residue has key `k`.
pub open spec fn keyed(res: Seq<ResidueInfo>, k: Seq<u8>) -> bool {
    exists|i: int| 0 <= i < res.len() && #[trigger] res[i].key@ == k
}

/// Running totals of one residue.
#[derive(Clone, Copy)]
struct ResidueStats {
    atom_count: usize,
    polymer_flag: bool,
    hetatm_only: bool,
    has_ion_element: bool,
}

/// A residue: its key, name, totals and classification.
pub struct ResidueInfo {
    pub key: Vec<u8>,
    pub name: Vec<u8>,
    pub atom_count: usize,
    pub polymer_flag: bool,
    pub hetatm_only: bool,
    pub class: ResidueClass,
}

proof fn lemma_push_unfold(p: Seq<RecordView>, r: RecordView)
    ensures
        p.push(r).drop_last() == p,
        p.push(r).last() == r,
        p.push(r).len() > 0,
{
    assert(p.push(r).drop_last() =~= p);
}

proof fn lemma_absent_key(p: Seq<RecordView>, k: Seq<u8>)
    requires
        !has_key(p, k),
    ensures
        atom_count(p, k) == 0,
        !any_atom_record(p, k),
        all_hetatm(p, k),
        !ion_element_present(p, k),
    decreases p.len(),
{
    if p.len() > 0 {
        lemma_absent_key(p.drop_last(), k);
    }
}

/// Index of the residue with key `key`, if any.
fn find_key(keys: &Vec<Vec<u8>>, key: &[u8]) -> (r: Option<usize>)
    ensures
        match r {
            Some(i) => i < keys.len() && keys@[i as int]@ == key@,
            None => forall|i: int| 0 <= i < keys.len() ==> #[trigger] keys@[i]@ != key@,
        },
{
    let mut i: usize = 0;
    while i < keys.len()
        invariant
            0 <= i <= keys.len(),
            forall|t: int| 0 <= t < i ==> #[trigger] keys@[t]@ != key@,
        decreases keys.len() - i,
    {
        if bytes_eq(keys[i].as_slice(), key) {
            return Some(i);
        }
        i = i + 1;
    }
    None
}

/// Whether `b` (ignoring case) reads `tag`.
fn tag_is(b: &[u8], tag: Ghost<Seq<u8>>, lit: Vec<u8>) -> (r: bool)
    requires
        lit@ == tag@,
    ensures
        r == (upper(b@) == tag@),
{
    let u = to_upper(b);
    bytes_eq(u.as_slice(), lit.as_slice())
}

/// Ion: a listed ion residue name, or a residue of at most one atom whose
/// elements include an ion element or whose name is an ion element.
pub open spec fn is_ion_spec(name: Seq<u8>, atom_count: int, has_ion_element: bool) -> bool {
    in_names(ion_residue_names(), upper(name)) || (atom_count <= 1 && (has_ion_element || in_names(
        ion_element_names(),
        upper(name),
    )))
}

/// Whether a residue is an ion (see `is_ion_spec`).
fn is_ion(name: &[u8], atom_count: usize, has_ion_element: bool) -> (r: bool)
    ensures
        r == is_ion_spec(name@, atom_count as int, has_ion_element),
{
    let up = to_upper(name);
    if listed(&ion_residues(), Ghost(ion_residue_names()), up.as_slice()) {
        return true;
    }
    if atom_count <= 1 {
        if has_ion_element {
            return true;
        }
        if listed(&ion_elements(), Ghost(ion_element_names()), up.as_slice()) {
            return true;
        }
    }
    false
}

/// Classification of the residue with key `k` from its name and totals.
fn residue_class(name: &[u8], st: ResidueStats, recs: Ghost<Seq<RecordView>>, k: Ghost<Seq<u8>>) -> (r: ResidueClass)
    requires
        name@ == name_for(recs@, k@),
        st.atom_count == atom_count(recs@, k@),
        st.polymer_flag == any_atom_record(recs@, k@),
        st.hetatm_only == all_hetatm(recs@, k@),
        st.has_ion_element == ion_element_present(recs@, k@),
    ensures
        r == class_of(recs@, k@),
{
    let amino = is_amino(name);
    let nucleic = is_nucleic(name);
    let polymer = st.polymer_flag || amino || nucleic;
    let water = is_water(name);
    let ion = is_ion(name, st.atom_count, st.has_ion_element);
    ResidueClass {
        is_water: water,
        is_ion: ion,
        is_ligand: !polymer && !water && !ion,
        hetatm_only: st.hetatm_only,
        is_nucleic: nucleic,
        is_amino: amino,
    }
}

/// Group the records by residue key and classify each residue (see
/// `class_of`). Keys are distinct and listed in order of first appearance.
#[verifier::spinoff_prover]
#[verifier::rlimit(40)]
fn classify_residues(atoms: &[AtomRecord]) -> (r: Vec<ResidueInfo>)
    ensures
        forall|i: int|
            0 <= i < r.len() ==> has_key(record_views(atoms@), #[trigger] r@[i].key@) && r@[i].class == class_of(
                record_views(atoms@),
                r@[i].key@,
            ),
        forall|t: int| 0 <= t < atoms.len() ==> keyed(r@, key_of(#[trigger] atoms@[t]@)),
{
    let ghost recs = record_views(atoms@);
    let mut keys: Vec<Vec<u8>> = Vec::new();
    let mut names: Vec<Vec<u8>> = Vec::new();
    let mut stats: Vec<ResidueStats> = Vec::new();
    let mut t: usize = 0;
    while t < atoms.len()
        invariant
            0 <= t <= atoms.len(),
            recs == record_views(atoms@),
            keys.len() == names.len(),
            keys.len() == stats.len(),
            forall|i: int|
                0 <= i < keys.len() ==> {
                    let k = #[trigger] keys@[i]@;
                    let p = recs.subrange(0, t as int);
                    &&& has_key(p, k)
                    &&& names@[i]@ == name_for(p, k)
                    &&& stats@[i].atom_count == atom_count(p, k)
                    &&& stats@[i].polymer_flag == any_atom_record(p, k)
                    &&& stats@[i].hetatm_only == all_hetatm(p, k)
                    &&& stats@[i].has_ion_element == ion_element_present(p, k)
                    &&& stats@[i].atom_count <= t
                },
            forall|k: Seq<u8>|
                has_key(recs.subrange(0, t as int), k) ==> exists|i: int|
                    0 <= i < keys.len() && #[trigger] keys@[i]@ == k,
            forall|a: int, b: int| 0 <= a < b < keys.len() ==> #[trigger] keys@[a]@ != #[trigger] keys@[b]@,
        decreases atoms.len() - t,
    {
        let ghost p = recs.subrange(0, t as int);
        let ghost p_next = recs.subrange(0, t + 1);
        let rec = &atoms[t];
        proof {
            assert(p_next =~= p.push(rec@));
            lemma_push_unfold(p, rec@);
        }
        let key = make_residue_key(rec);
        let is_atom = tag_is(rec.record.as_slice(), Ghost(atom_tag()), vec![65u8, 84u8, 79u8, 77u8]);
        let is_het = tag_is(rec.record.as_slice(), Ghost(hetatm_tag()), vec![72u8, 69u8, 84u8, 65u8, 84u8, 77u8]);
        let ion_el = if rec.element.len() > 0 {
            let up = to_upper(rec.element.as_slice());
            listed(&ion_elements(), Ghost(ion_element_names()), up.as_slice())
        } else {
            false
        };
        let ghost keys0 = keys@;
        match find_key(&keys, key.as_slice()) {
            Some(i) => {
                let old_stats = stats[i];
                let ns = ResidueStats {
                    atom_count: old_stats.atom_count + 1,
                    polymer_flag: old_stats.polymer_flag || is_atom,
                    hetatm_only: old_stats.hetatm_only && is_het,
                    has_ion_element: old_stats.has_ion_element || ion_el,
                };
                stats.set(i, ns);
                proof {
                    assert forall|j: int| 0 <= j < keys.len() implies {
                        let k = #[trigger] keys@[j]@;
                        &&& has_key(p_next, k)
                        &&& names@[j]@ == name_for(p_next, k)
                        &&& stats@[j].atom_count == atom_count(p_next, k)
                        &&& stats@[j].polymer_flag == any_atom_record(p_next, k)
                        &&& stats@[j].hetatm_only == all_hetatm(p_next, k)
                        &&& stats@[j].has_ion_element == ion_element_present(p_next, k)
                        &&& stats@[j].atom_count <= t + 1
                    } by {
                        let k = keys@[j]@;
                        assert(has_key(p, k));
                        if j != i {
                            assert(k != key@);
                        }
                    }
                    assert forall|k: Seq<u8>| has_key(p_next, k) implies exists|j: int|
                        0 <= j < keys.len() && #[trigger] keys@[j]@ == k by {
                        if !has_key(p, k) {
                            assert(keys@[i as int]@ == k);
                        }
                    }
                }
            },
            None => {
                proof {
                    if has_key(p, key@) {
                        let j = choose|j: int| 0 <= j < keys.len() && #[trigger] keys@[j]@ == key@;
                        assert(false);
                    }
                    lemma_absent_key(p, key@);
                }
                keys.push(key);
                names.push(copy_bytes(rec.residue.as_slice()));
                stats.push(
                    ResidueStats {
                        atom_count: 1,
                        polymer_flag: is_atom,
                        hetatm_only: is_het,
                        has_ion_element: ion_el,
                    },
                );
                proof {
                    assert forall|j: int| 0 <= j < keys.len() implies {
                        let k = #[trigger] keys@[j]@;
                        &&& has_key(p_next, k)
                        &&& names@[j]@ == name_for(p_next, k)
                        &&& stats@[j].atom_count == atom_count(p_next, k)
                        &&& stats@[j].polymer_flag == any_atom_record(p_next, k)
                        &&& stats@[j].hetatm_only == all_hetatm(p_next, k)
                        &&& stats@[j].has_ion_element == ion_element_present(p_next, k)
                        &&& stats@[j].atom_count <= t + 1
                    } by {
                        if j < keys0.len() {
                            assert(keys@[j] == keys0[j]);
                            assert(has_key(p, keys@[j]@));
                            assert(keys@[j]@ != key@);
                        }
                    }
                    assert forall|a: int, b: int| 0 <= a < b < keys.len() implies #[trigger] keys@[a]@
                        != #[trigger] keys@[b]@ by {
                        if b == keys.len() - 1 {
                            assert(keys@[a] == keys0[a]);
                        } else {
                            assert(keys@[a] == keys0[a]);
                            assert(keys@[b] == keys0[b]);
                        }
                    }
                    assert forall|k: Seq<u8>| has_key(p_next, k) implies exists|j: int|
                        0 <= j < keys.len() && #[trigger] keys@[j]@ == k by {
                        if has_key(p, k) {
                            let j = choose|j: int| 0 <= j < keys0.len() && #[trigger] keys0[j]@ == k;
                            assert(keys@[j] == keys0[j]);
                        } else {
                            assert(keys@[keys.len() - 1]@ == k);
                        }
                    }
                }
            },
        }
        t = t + 1;
    }
    proof {
        assert(recs.subrange(0, atoms.len() as int) =~= recs);
    }
    let mut out: Vec<ResidueInfo> = Vec::new();
    let mut i: usize = 0;
    while i < keys.len()
        invariant
            0 <= i <= keys.len(),
            keys.len() == names.len(),
            keys.len() == stats.len(),
            recs == record_views(atoms@),
            out.len() == i,
            forall|j: int|
                0 <= j < keys.len() ==> {
                    let k = #[trigger] keys@[j]@;
                    &&& has_key(recs, k)
                    &&& names@[j]@ == name_for(recs, k)
                    &&& stats@[j].atom_count == atom_count(recs, k)
                    &&& stats@[j].polymer_flag == any_atom_record(recs, k)
                    &&& stats@[j].hetatm_only == all_hetatm(recs, k)
                    &&& stats@[j].has_ion_element == ion_element_present(recs, k)
                },
            forall|j: int| 0 <= j < i ==> #[trigger] out@[j].key@ == keys@[j]@,
            forall|j: int| 0 <= j < i ==> #[trigger] out@[j].class == class_of(recs, keys@[j]@),
        decreases keys.len() - i,
    {
        let ghost out0 = out@;
        let class = residue_class(names[i].as_slice(), stats[i], Ghost(recs), Ghost(keys@[i as int]@));
        out.push(
            ResidueInfo {
                key: copy_bytes(keys[i].as_slice()),
                name: copy_bytes(names[i].as_slice()),
                atom_count: stats[i].atom_count,
                polymer_flag: stats[i].polymer_flag || class.is_amino || class.is_nucleic,
                hetatm_only: stats[i].hetatm_only,
                class,
            },
        );
        proof {
            assert(out@[i as int].key@ == keys@[i as int]@);
            assert(out@[i as int].class == class_of(recs, keys@[i as int]@));
            assert forall|j: int| 0 <= j < i + 1 implies #[trigger] out@[j].key@ == keys@[j]@ by {
                if j < i {
                    assert(out@[j] == out0[j]);
                }
            }
            assert forall|j: int| 0 <= j < i + 1 implies #[trigger] out@[j].class == class_of(recs, keys@[j]@) by {
                if j < i {
                    assert(out@[j] == out0[j]);
                }
            }
        }
        i = i + 1;
    }
    proof {
        assert forall|t: int| 0 <= t < atoms.len() implies keyed(out@, key_of(#[trigger] atoms@[t]@)) by {
            assert(recs[t] == atoms@[t]@);
            lemma_has_key_at(recs, t);
            let j = choose|j: int| 0 <= j < keys.len() && #[trigger] keys@[j]@ == key_of(atoms@[t]@);
            assert(out@[j].key@ == keys@[j]@);
        }
    }
    out
}

proof fn lemma_has_key_at(recs: Seq<RecordView>, t: int)
    requires
        0 <= t < recs.len(),
    ensures
        has_key(recs, key_of(recs[t])),
    decreases recs.len(),
{
    if t < recs.len() - 1 {
        lemma_has_key_at(recs.drop_last(), t);
        assert(recs.drop_last()[t] == recs[t]);
    }
}

/// A copy of a byte string.
fn copy_bytes(s: &[u8]) -> (r: Vec<u8>)
    ensures
        r@ == s@,
{
    let mut r: Vec<u8> = Vec::new();
    concat_bytes(&mut r, s);
    assert(r@ =~= s@);
    r
}

/// Whether `filters` leave out the residue `info`.
fn should_filter(info: &ResidueInfo, filters: &Filters) -> (r: bool)
    ensures
        r == filtered_spec(info.class, *filters),
{
    if filters.exclude_water && info.class.is_water {
        return true;
    }
    if filters.exclude_ions && info.class.is_ion {
        return true;
    }
    if filters.exclude_ligands && info.class.is_ligand {
        return true;
    }
    if filters.exclude_hetatm && info.class.hetatm_only {
        return true;
    }
    if filters.exclude_nucleic_acids && info.class.is_nucleic {
        return true;
    }
    if filters.exclude_amino_acids && info.class.is_amino {
        return true;
    }
    false
}

/// Value of a string of decimal digits.
pub open spec fn digits_value(s: Seq<u8>) -> int
    decreases s.len(),
{
    if s.len() == 0 {
        0
    } else {
        10 * digits_value(s.drop_last()) + (s.last() - 48)
    }
}

/// Every byte is a decimal digit.
pub open spec fn all_digits(s: Seq<u8>) -> bool {
    forall|i: int| 0 <= i < s.len() ==> is_digit(#[trigger] s[i])
}

/// Index of the first byte `b` in `s`, or its length.
pub open spec fn first_of(s: Seq<u8>, b: u8) -> int
    decreases s.len(),
{
    if s.len() == 0 {
        0
    } else if first_of(s.drop_last(), b) < s.len() - 1 {
        first_of(s.drop_last(), b)
    } else if s.last() == b {
        s.len() - 1
    } else {
        s.len() as int
    }
}

/// The first three fraction digits, padded with zeros, as thousandths.
pub open spec fn thousandths(f: Seq<u8>) -> int {
    digits_value(Seq::new(3, |i: int| if i < f.len() { f[i] } else { 48u8 }))
}

/// A decimal number in thousandths: an optional sign, at most nine integer
/// digits, an optional `.` and fraction digits (beyond the third ignored),
/// with at least one digit; `None` for any other text.
pub open spec fn parse_fixed_spec(s: Seq<u8>) -> Option<int> {
    let signed = s.len() > 0 && (s[0] == 45 || s[0] == 43);
    let body = if signed {
        s.subrange(1, s.len() as int)
    } else {
        s
    };
    let d = first_of(body, 46u8);
    let ip = body.subrange(0, d);
    let fp = if d < body.len() {
        body.subrange(d + 1, body.len() as int)
    } else {
        Seq::empty()
    };
    let magnitude = digits_value(ip) * 1000 + thousandths(fp);
    if all_digits(ip) && all_digits(fp) && ip.len() + fp.len() > 0 && ip.len() <= 9 {
        Some(
            if signed && s[0] == 45 {
                -magnitude
            } else {
                magnitude
            },
        )
    } else {
        None
    }
}

/// Ten to the power `n`.
pub open spec fn pow10(n: nat) -> int
    decreases n,
{
    if n == 0 {
        1
    } else {
        10 * pow10((n - 1) as nat)
    }
}

proof fn lemma_pow10_mono(a: nat, b: nat)
    requires
        a <= b,
    ensures
        1 <= pow10(a) <= pow10(b),
    decreases b,
{
    if b > 0 {
        if a < b {
            lemma_pow10_mono(a, (b - 1) as nat);
        } else {
            lemma_pow10_mono((a - 1) as nat, (b - 1) as nat);
        }
    }
}

proof fn lemma_digits_bound(s: Seq<u8>)
    requires
        all_digits(s),
    ensures
        0 <= digits_value(s) < pow10(s.len()),
    decreases s.len(),
{
    if s.len() > 0 {
        assert(all_digits(s.drop_last())) by {
            assert forall|i: int| 0 <= i < s.drop_last().len() implies is_digit(#[trigger] s.drop_last()[i]) by {
                assert(s.drop_last()[i] == s[i]);
            }
        }
        lemma_digits_bound(s.drop_last());
        assert(is_digit(s[s.len() - 1]));
    }
}

/// Value of the decimal digits `s[from..to)`.
fn digits_exec(s: &[u8], from: usize, to: usize) -> (r: i64)
    requires
        from <= to <= s.len(),
        to - from <= 12,
        all_digits(s@.subrange(from as int, to as int)),
    ensures
        r == digits_value(s@.subrange(from as int, to as int)),
{
    let mut v: i64 = 0;
    let mut i: usize = from;
    while i < to
        invariant
            from <= i <= to,
            to <= s.len(),
            to - from <= 12,
            all_digits(s@.subrange(from as int, to as int)),
            v == digits_value(s@.subrange(from as int, i as int)),
        decreases to - i,
    {
        proof {
            let pre = s@.subrange(from as int, i as int);
            let pre1 = s@.subrange(from as int, i + 1);
            assert(pre1.drop_last() =~= pre);
            assert(s@.subrange(from as int, to as int)[i - from] == s@[i as int]);
            assert(all_digits(pre)) by {
                assert forall|t: int| 0 <= t < pre.len() implies is_digit(#[trigger] pre[t]) by {
                    assert(pre[t] == s@.subrange(from as int, to as int)[t]);
                }
            }
            lemma_digits_bound(pre);
            assert(i - from <= 11);
            lemma_pow10_mono((i - from) as nat, 11);
            reveal_with_fuel(pow10, 12);
        }
        v = 10 * v + (s[i] - 48) as i64;
        i = i + 1;
    }
    v
}

proof fn lemma_first_of(body: Seq<u8>, b: u8, m: int)
    requires
        0 <= m <= body.len(),
        forall|t: int| 0 <= t < m ==> body[t] != b,
        m == body.len() || body[m] == b,
    ensures
        first_of(body, b) == m,
    decreases body.len(),
{
    if body.len() > 0 {
        let p = body.drop_last();
        if m < body.len() - 1 {
            lemma_first_of(p, b, m);
        } else {
            lemma_first_of(p, b, p.len() as int);
        }
    }
}

/// Whether `s[from..to)` is all decimal digits.
fn all_digits_exec(s: &[u8], from: usize, to: usize) -> (r: bool)
    requires
        from <= to <= s.len(),
    ensures
        r == all_digits(s@.subrange(from as int, to as int)),
{
    let mut i: usize = from;
    while i < to
        invariant
            from <= i <= to,
            to <= s.len(),
            forall|t: int| from <= t < i ==> is_digit(#[trigger] s@[t]),
        decreases to - i,
    {
        if s[i] < 48 || s[i] > 57 {
            assert(s@.subrange(from as int, to as int)[i - from] == s@[i as int]);
            return false;
        }
        i = i + 1;
    }
    assert forall|t: int| 0 <= t < to - from implies is_digit(#[trigger] s@.subrange(from as int, to as int)[t]) by {
        assert(s@.subrange(from as int, to as int)[t] == s@[from + t]);
    }
    true
}

/// The first three digits of `s[from..to)`, padded with zeros, as
/// thousandths.
fn thousandths_exec(s: &[u8], from: usize, to: usize) -> (r: i64)
    requires
        from <= to <= s.len(),
        all_digits(s@.subrange(from as int, to as int)),
    ensures
        r == thousandths(s@.subrange(from as int, to as int)),
        0 <= r <= 999,
{
    let ghost fp = s@.subrange(from as int, to as int);
    proof {
        if from < to {
            assert(fp[0] == s@[from as int]);
            assert(is_digit(fp[0]));
        }
        if from + 1 < to {
            assert(fp[1] == s@[from + 1]);
            assert(is_digit(fp[1]));
        }
        if from + 2 < to {
            assert(fp[2] == s@[from + 2]);
            assert(is_digit(fp[2]));
        }
    }
    let f0: i64 = if from < to {
        (s[from] - 48) as i64
    } else {
        0
    };
    let len = to - from;
    let f1: i64 = if 1 < len {
        (s[from + 1] - 48) as i64
    } else {
        0
    };
    let f2: i64 = if 2 < len {
        (s[from + 2] - 48) as i64
    } else {
        0
    };
    proof {
        let pad = Seq::new(3, |i: int| if i < fp.len() { fp[i] } else { 48u8 });
        assert(pad.drop_last().drop_last().drop_last() =~= Seq::<u8>::empty());
        assert(pad.drop_last().drop_last().last() == pad[0]);
        assert(pad.drop_last().last() == pad[1]);
        reveal_with_fuel(digits_value, 4);
    }
    f0 * 100 + f1 * 10 + f2
}

/// Parse a decimal number into thousandths (see `parse_fixed_spec`).
#[verifier::spinoff_prover]
#[verifier::rlimit(40)]
fn parse_fixed(s: &[u8]) -> (r: Option<i64>)
    ensures
        match r {
            Some(v) => parse_fixed_spec(s@) == Some(v as int) && crate::length_ok(v),
            None => parse_fixed_spec(s@) is None,
        },
{
    let n = s.len();
    let signed = n > 0 && (s[0] == 45 || s[0] == 43);
    let start: usize = if signed {
        1
    } else {
        0
    };
    let ghost body = if signed {
        s@.subrange(1, n as int)
    } else {
        s@
    };
    assert(body =~= s@.subrange(start as int, n as int));
    let mut d: usize = start;
    while d < n && s[d] != 46
        invariant
            start <= d <= n,
            n == s.len(),
            forall|t: int| start <= t < d ==> s@[t] != 46,
        decreases n - d,
    {
        d = d + 1;
    }
    proof {
        assert forall|t: int| 0 <= t < d - start implies body[t] != 46 by {
            assert(body[t] == s@[start + t]);
        }
        if d < n {
            assert(body[d - start] == s@[d as int]);
        }
        lemma_first_of(body, 46u8, d - start);
        assert(body.subrange(0, d - start) =~= s@.subrange(start as int, d as int));
        if d < n {
            assert(body.subrange(d - start + 1, body.len() as int) =~= s@.subrange(d + 1, n as int));
        }
    }
    let frac_start: usize = if d < n {
        d + 1
    } else {
        n
    };
    proof {
        if d >= n {
            assert(s@.subrange(n as int, n as int) =~= Seq::<u8>::empty());
        }
    }
    let ghost ip = s@.subrange(start as int, d as int);
    let ghost fp = s@.subrange(frac_start as int, n as int);
    if d - start > 9 || !all_digits_exec(s, start, d) || !all_digits_exec(s, frac_start, n) || (d - start) + (n
        - frac_start) == 0 {
        return None;
    }
    let int_part = digits_exec(s, start, d);
    let frac = thousandths_exec(s, frac_start, n);
    proof {
        lemma_digits_bound(ip);
        lemma_pow10_mono(ip.len(), 9);
        reveal_with_fuel(pow10, 10);
    }
    let magnitude = int_part * 1000 + frac;
    if signed && s[0] == 45 {
        Some(-magnitude)
    } else {
        Some(magnitude)
    }
}

/// Whitespace-separated words of `s`, in order.
pub open spec fn tokens(s: Seq<u8>) -> Seq<Seq<u8>>
    decreases s.len(),
{
    if s.len() == 0 {
        Seq::empty()
    } else {
        let prev = tokens(s.drop_last());
        let b = s.last();
        if is_space(b) {
            prev
        } else if s.len() >= 2 && !is_space(s[s.len() - 2]) {
            prev.update(prev.len() - 1, prev.last().push(b))
        } else {
            prev.push(seq![b])
        }
    }
}

proof fn lemma_tokens_nonempty(s: Seq<u8>)
    requires
        s.len() > 0,
        !is_space(s.last()),
    ensures
        tokens(s).len() > 0,
    decreases s.len(),
{
    if s.len() >= 2 && !is_space(s[s.len() - 2]) {
        assert(s.drop_last().last() == s[s.len() - 2]);
        lemma_tokens_nonempty(s.drop_last());
    }
}

/// Split `s[0..end)` at whitespace.
fn split_tokens(s: &[u8], end: usize) -> (r: Vec<Vec<u8>>)
    requires
        end <= s.len(),
    ensures
        Seq::new(r.len() as nat, |j: int| r@[j]@) == tokens(s@.subrange(0, end as int)),
{
    let mut toks: Vec<Vec<u8>> = Vec::new();
    let mut i: usize = 0;
    while i < end
        invariant
            0 <= i <= end,
            end <= s.len(),
            Seq::new(toks.len() as nat, |j: int| toks@[j]@) == tokens(s@.subrange(0, i as int)),
        decreases end - i,
    {
        let ghost pre = s@.subrange(0, i as int);
        let ghost pre1 = s@.subrange(0, i + 1);
        proof {
            assert(pre1.drop_last() =~= pre);
            assert(pre1.last() == s@[i as int]);
        }
        let b = s[i];
        if !is_space_exec(b) {
            if i > 0 && !is_space_exec(s[i - 1]) {
                proof {
                    assert(pre.last() == s@[i - 1]);
                    lemma_tokens_nonempty(pre);
                    assert(pre1[pre1.len() - 2] == s@[i - 1]);
                }
                let mut last = toks.pop().unwrap();
                last.push(b);
                toks.push(last);
                proof {
                    assert(Seq::new(toks.len() as nat, |j: int| toks@[j]@) =~= tokens(pre1));
                }
            } else {
                toks.push(vec![b]);
                proof {
                    if i > 0 {
                        assert(pre1[pre1.len() - 2] == s@[i - 1]);
                    }
                    assert(toks@.last()@ =~= seq![b]);
                    assert(Seq::new(toks.len() as nat, |j: int| toks@[j]@) =~= tokens(pre1));
                }
            }
        }
        i = i + 1;
    }
    toks
}

/// `radius`
pub open spec fn radius_word() -> Seq<u8> {
    seq![114u8, 97u8, 100u8, 105u8, 117u8, 115u8]
}

/// One radius definition: key, radii in thousandths of an ångström, and
/// the radii as written.
pub struct RadiusEntry {
    pub key: Vec<u8>,
    pub explicit: i64,
    pub united: i64,
    pub explicit_text: Vec<u8>,
    pub united_text: Vec<u8>,
}

/// A `RadiusEntry` as values.
pub struct RadiusView {
    pub key: Seq<u8>,
    pub explicit: int,
    pub united: int,
    pub explicit_text: Seq<u8>,
    pub united_text: Seq<u8>,
}

impl View for RadiusEntry {
    type V = RadiusView;

    open spec fn view(&self) -> RadiusView {
        RadiusView {
            key: self.key@,
            explicit: self.explicit as int,
            united: self.united as int,
            explicit_text: self.explicit_text@,
            united_text: self.united_text@,
        }
    }
}

/// A residue pattern and an atom pattern that select a radius key.
pub struct PatternEntry {
    pub residue: crate::pattern::CompiledPattern,
    pub atom: crate::pattern::CompiledPattern,
    pub key: Vec<u8>,
}

/// A `PatternEntry` as its pattern texts and key.
pub struct PatternView {
    pub residue: Seq<u8>,
    pub atom: Seq<u8>,
    pub key: Seq<u8>,
}

impl View for PatternEntry {
    type V = PatternView;

    open spec fn view(&self) -> PatternView {
        PatternView { residue: self.residue.source(), atom: self.atom.source(), key: self.key@ }
    }
}

/// Radius assignment rules: patterns in order, and radii by key.
pub struct RadiusTable {
    pub patterns: Vec<PatternEntry>,
    pub radii: Vec<RadiusEntry>,
}

/// A `RadiusTable` as values.
pub struct TableView {
    pub patterns: Seq<PatternView>,
    pub radii: Seq<RadiusView>,
}

impl View for RadiusTable {
    type V = TableView;

    open spec fn view(&self) -> TableView {
        TableView {
            patterns: Seq::new(self.patterns.len() as nat, |i: int| self.patterns@[i]@),
            radii: Seq::new(self.radii.len() as nat, |i: int| self.radii@[i]@),
        }
    }
}

/// Index of the first radius with key `key`, or the length.
pub open spec fn find_radius(radii: Seq<RadiusView>, key: Seq<u8>) -> int
    decreases radii.len(),
{
    if radii.len() == 0 {
        0
    } else if find_radius(radii.drop_last(), key) < radii.len() - 1 {
        find_radius(radii.drop_last(), key)
    } else if radii.last().key == key {
        radii.len() - 1
    } else {
        radii.len() as int
    }
}

/// `0.01`, the radius of an atom that no rule covers.
pub open spec fn default_radius_text() -> Seq<u8> {
    seq![48u8, 46u8, 48u8, 49u8]
}

/// Default radius in thousandths of an ångström.
pub const DEFAULT_RADIUS: i64 = 10;

/// The radius entry of a `radius` line's words.
pub open spec fn radius_entry_spec(toks: Seq<Seq<u8>>) -> RadiusView {
    let explicit_text = toks[3];
    let explicit = match parse_fixed_spec(explicit_text) {
        Some(v) => v,
        None => DEFAULT_RADIUS as int,
    };
    let united_text = if toks.len() > 4 {
        toks[4]
    } else {
        explicit_text
    };
    let united = match parse_fixed_spec(united_text) {
        Some(v) => v,
        None => explicit,
    };
    RadiusView { key: toks[1], explicit, united, explicit_text, united_text }
}

/// Anchored residue pattern: `*` stands for any name.
pub open spec fn residue_regex(p: Seq<u8>) -> Seq<u8> {
    seq![94u8] + (if p == seq![42u8] {
        seq![46u8, 42u8]
    } else {
        p
    }) + seq![36u8]
}

/// Anchored atom pattern: `_` stands for a space.
pub open spec fn atom_regex(p: Seq<u8>) -> Seq<u8> {
    seq![94u8] + Seq::new(p.len(), |i: int| if p[i] == 95 { 32u8 } else { p[i] }) + seq![36u8]
}

/// The table after reading one more line: text after `#` is ignored; a
/// `radius KEY _ EXPLICIT [UNITED]` line sets the radii of KEY; a line of
/// at least three words `RESIDUE ATOM KEY` adds a rule when both patterns
/// compile.
pub open spec fn apply_line(t: TableView, line: Seq<u8>) -> TableView {
    let toks = tokens(line.subrange(0, first_of(line, 35u8)));
    if toks.len() == 0 {
        t
    } else if toks[0] == radius_word() {
        if toks.len() < 4 {
            t
        } else {
            let e = radius_entry_spec(toks);
            let i = find_radius(t.radii, e.key);
            TableView {
                patterns: t.patterns,
                radii: if i < t.radii.len() {
                    t.radii.update(i, e)
                } else {
                    t.radii.push(e)
                },
            }
        }
    } else if toks.len() < 3 {
        t
    } else {
        let rp = residue_regex(toks[0]);
        let ap = atom_regex(toks[1]);
        if crate::pattern::regex_accepts(rp) && crate::pattern::regex_accepts(ap) {
            TableView { patterns: t.patterns.push(PatternView { residue: rp, atom: ap, key: toks[2] }), radii: t.radii }
        } else {
            t
        }
    }
}

/// The table that the lines describe.
pub open spec fn table_spec(lines: Seq<Seq<u8>>) -> TableView
    decreases lines.len(),
{
    if lines.len() == 0 {
        TableView { patterns: Seq::empty(), radii: Seq::empty() }
    } else {
        apply_line(table_spec(lines.drop_last()), lines.last())
    }
}

proof fn lemma_find_radius(radii: Seq<RadiusView>, key: Seq<u8>, m: int)
    requires
        0 <= m <= radii.len(),
        forall|t: int| 0 <= t < m ==> #[trigger] radii[t].key != key,
        m == radii.len() || radii[m].key == key,
    ensures
        find_radius(radii, key) == m,
    decreases radii.len(),
{
    if radii.len() > 0 {
        let p = radii.drop_last();
        assert forall|t: int| 0 <= t < p.len() && t < m implies #[trigger] p[t].key != key by {
            assert(p[t] == radii[t]);
        }
        if m < radii.len() - 1 {
            assert(p[m] == radii[m]);
            lemma_find_radius(p, key, m);
        } else {
            lemma_find_radius(p, key, p.len() as int);
        }
    }
}

/// Index of the first radius with key `key`, or the length.
fn find_radius_exec(radii: &Vec<RadiusEntry>, key: &[u8]) -> (r: usize)
    ensures
        r == find_radius(Seq::new(radii.len() as nat, |i: int| radii@[i]@), key@),
        r <= radii.len(),
{
    let ghost v = Seq::new(radii.len() as nat, |i: int| radii@[i]@);
    let mut i: usize = 0;
    while i < radii.len()
        invariant
            0 <= i <= radii.len(),
            v == Seq::new(radii.len() as nat, |i: int| radii@[i]@),
            forall|t: int| 0 <= t < i ==> #[trigger] v[t].key != key@,
        decreases radii.len() - i,
    {
        if bytes_eq(radii[i].key.as_slice(), key) {
            proof {
                lemma_find_radius(v, key@, i as int);
            }
            return i;
        }
        i = i + 1;
    }
    proof {
        lemma_find_radius(v, key@, i as int);
    }
    i
}

/// Index of the first byte `b` in `s`, or its length.
fn first_of_exec(s: &[u8], b: u8) -> (r: usize)
    ensures
        r == first_of(s@, b),
        r <= s.len(),
{
    let mut i: usize = 0;
    while i < s.len() && s[i] != b
        invariant
            0 <= i <= s.len(),
            forall|t: int| 0 <= t < i ==> s@[t] != b,
        decreases s.len() - i,
    {
        i = i + 1;
    }
    proof {
        lemma_first_of(s@, b, i as int);
    }
    i
}

/// The anchored residue pattern (see `residue_regex`).
fn residue_regex_exec(p: &[u8]) -> (r: Vec<u8>)
    ensures
        r@ == residue_regex(p@),
{
    let mut r: Vec<u8> = vec![94u8];
    let star = vec![42u8];
    assert(star@ =~= seq![42u8]);
    if bytes_eq(p, star.as_slice()) {
        r.push(46u8);
        r.push(42u8);
    } else {
        concat_bytes(&mut r, p);
    }
    r.push(36u8);
    assert(r@ =~= residue_regex(p@));
    r
}

/// The anchored atom pattern (see `atom_regex`).
fn atom_regex_exec(p: &[u8]) -> (r: Vec<u8>)
    ensures
        r@ == atom_regex(p@),
{
    let mut r: Vec<u8> = vec![94u8];
    let mut i: usize = 0;
    while i < p.len()
        invariant
            0 <= i <= p.len(),
            r@ == seq![94u8] + Seq::new(i as nat, |t: int| if p@[t] == 95 { 32u8 } else { p@[t] }),
        decreases p.len() - i,
    {
        let b = if p[i] == 95 {
            32u8
        } else {
            p[i]
        };
        r.push(b);
        i = i + 1;
        assert(r@ =~= seq![94u8] + Seq::new(i as nat, |t: int| if p@[t] == 95 { 32u8 } else { p@[t] }));
    }
    r.push(36u8);
    assert(r@ =~= atom_regex(p@));
    r
}

/// Read one line of the radius table into `table` (see `apply_line`).
#[verifier::spinoff_prover]
#[verifier::rlimit(40)]
fn apply_table_line(table: &mut RadiusTable, line: &[u8])
    ensures
        final(table)@ == apply_line(old(table)@, line@),
{
    let hash = first_of_exec(line, 35u8);
    let toks = split_tokens(line, hash);
    let ghost tv = Seq::new(toks.len() as nat, |j: int| toks@[j]@);
    if toks.len() == 0 {
        return;
    }
    let word = vec![114u8, 97u8, 100u8, 105u8, 117u8, 115u8];
    assert(word@ =~= radius_word());
    assert(tv[0] == toks@[0]@);
    if bytes_eq(toks[0].as_slice(), word.as_slice()) {
        if toks.len() < 4 {
            return;
        }
        let explicit_text = copy_bytes(toks[3].as_slice());
        let explicit = match parse_fixed(toks[3].as_slice()) {
            Some(v) => v,
            None => DEFAULT_RADIUS,
        };
        let united_text = if toks.len() > 4 {
            copy_bytes(toks[4].as_slice())
        } else {
            copy_bytes(toks[3].as_slice())
        };
        let united = match parse_fixed(united_text.as_slice()) {
            Some(v) => v,
            None => explicit,
        };
        let key = copy_bytes(toks[1].as_slice());
        let i = find_radius_exec(&table.radii, key.as_slice());
        let e = RadiusEntry { key, explicit, united, explicit_text, united_text };
        proof {
            assert(tv[1] == toks@[1]@);
            assert(tv[3] == toks@[3]@);
            if toks.len() > 4 {
                assert(tv[4] == toks@[4]@);
            }
            assert(e@ == radius_entry_spec(tv));
        }
        if i < table.radii.len() {
            table.radii.set(i, e);
        } else {
            table.radii.push(e);
        }
        proof {
            assert(final(table)@.radii =~= apply_line(old(table)@, line@).radii);
            assert(final(table)@.patterns =~= old(table)@.patterns);
        }
        return;
    }
    if toks.len() < 3 {
        return;
    }
    let rp = residue_regex_exec(toks[0].as_slice());
    let ap = atom_regex_exec(toks[1].as_slice());
    let key = copy_bytes(toks[2].as_slice());
    proof {
        assert(tv[1] == toks@[1]@);
        assert(tv[2] == toks@[2]@);
    }
    let ghost rpv = rp@;
    let ghost apv = ap@;
    match crate::pattern::compile_pattern(rp) {
        Some(residue) => match crate::pattern::compile_pattern(ap) {
            Some(atom) => {
                let entry = PatternEntry { residue, atom, key };
                assert(entry@ == PatternView { residue: rpv, atom: apv, key: tv[2] });
                table.patterns.push(entry);
                proof {
                    assert(final(table)@.patterns =~= old(table)@.patterns.push(entry@));
                    assert(final(table)@.radii =~= old(table)@.radii);
                }
            },
            None => {},
        },
        None => {},
    }
}

/// A line without the carriage return that ended it.
pub open spec fn strip_cr(c: Seq<u8>) -> Seq<u8> {
    if c.len() > 0 && c.last() == 13 {
        c.drop_last()
    } else {
        c
    }
}

/// Lines ended so far, and the bytes of the line still open.
pub open spec fn split_state(s: Seq<u8>) -> (Seq<Seq<u8>>, Seq<u8>)
    decreases s.len(),
{
    if s.len() == 0 {
        (Seq::empty(), Seq::empty())
    } else {
        let (done, cur) = split_state(s.drop_last());
        if s.last() == 10 {
            (done.push(strip_cr(cur)), Seq::empty())
        } else {
            (done, cur.push(s.last()))
        }
    }
}

/// Lines of a text: split at `\n`, a `\r` before it dropped, and no empty
/// line after a final `\n`.
pub open spec fn lines_spec(s: Seq<u8>) -> Seq<Seq<u8>> {
    let (done, cur) = split_state(s);
    if cur.len() > 0 {
        done.push(cur)
    } else {
        done
    }
}

/// Split a text into lines (see `lines_spec`).
pub fn split_lines(text: &[u8]) -> (r: Vec<Vec<u8>>)
    ensures
        line_views(r@) == lines_spec(text@),
{
    let mut done: Vec<Vec<u8>> = Vec::new();
    let mut cur: Vec<u8> = Vec::new();
    let mut i: usize = 0;
    while i < text.len()
        invariant
            0 <= i <= text.len(),
            (line_views(done@), cur@) == split_state(text@.subrange(0, i as int)),
        decreases text.len() - i,
    {
        proof {
            assert(text@.subrange(0, i + 1).drop_last() =~= text@.subrange(0, i as int));
        }
        let ghost before = line_views(done@);
        if text[i] == 10 {
            let mut line = cur;
            if line.len() > 0 && line[line.len() - 1] == 13 {
                line.pop();
            }
            done.push(line);
            cur = Vec::new();
            proof {
                assert(line_views(done@) =~= before.push(done@.last()@));
            }
        } else {
            cur.push(text[i]);
        }
        i = i + 1;
    }
    proof {
        assert(text@.subrange(0, text.len() as int) =~= text@);
    }
    if cur.len() > 0 {
        let ghost before = line_views(done@);
        done.push(cur);
        proof {
            assert(line_views(done@) =~= before.push(done@.last()@));
        }
    }
    done
}

/// Build the radius table from its text (see `lines_spec` and `table_spec`).
pub fn parse_radius_table(text: &[u8]) -> (r: RadiusTable)
    ensures
        r@ == table_spec(lines_spec(text@)),
{
    let lines = split_lines(text);
    let r = parse_table_lines(lines.as_slice());
    r
}

/// Build the radius table from its lines (see `table_spec`).
fn parse_table_lines(lines: &[Vec<u8>]) -> (r: RadiusTable)
    ensures
        r@ == table_spec(line_views(lines@)),
{
    let mut table = RadiusTable { patterns: Vec::new(), radii: Vec::new() };
    proof {
        assert(table@.patterns =~= Seq::<PatternView>::empty());
        assert(table@.radii =~= Seq::<RadiusView>::empty());
        assert(line_views(lines@.subrange(0, 0)) =~= Seq::<Seq<u8>>::empty());
    }
    let mut i: usize = 0;
    while i < lines.len()
        invariant
            0 <= i <= lines.len(),
            table@ == table_spec(line_views(lines@.subrange(0, i as int))),
        decreases lines.len() - i,
    {
        proof {
            assert(line_views(lines@.subrange(0, i + 1)).drop_last() =~= line_views(lines@.subrange(0, i as int)));
            assert(line_views(lines@.subrange(0, i + 1)).last() == lines@[i as int]@);
        }
        apply_table_line(&mut table, lines[i].as_slice());
        i = i + 1;
    }
    assert(lines@.subrange(0, lines.len() as int) =~= lines@);
    table
}

/// Index of the radius that the first applicable rule gives: the first
/// pattern whose residue and atom expressions both match and whose key has
/// a radius.
pub open spec fn rule_spec(pats: Seq<PatternView>, radii: Seq<RadiusView>, residue: Seq<u8>, atom: Seq<u8>) -> Option<
    int,
>
    decreases pats.len(),
{
    if pats.len() == 0 {
        None
    } else {
        let p = pats[0];
        let i = find_radius(radii, p.key);
        if crate::pattern::regex_matches(p.residue, residue) && crate::pattern::regex_matches(p.atom, atom) && i
            < radii.len() {
            Some(i)
        } else {
            rule_spec(pats.subrange(1, pats.len() as int), radii, residue, atom)
        }
    }
}

/// Radius text of an atom: the united or explicit text of the rule's
/// radius, or `0.01` when no rule applies.
pub open spec fn radius_text_spec(t: TableView, residue: Seq<u8>, atom: Seq<u8>, use_united: bool) -> Seq<u8> {
    match rule_spec(t.patterns, t.radii, residue, atom) {
        Some(i) => if use_united {
            t.radii[i].united_text
        } else {
            t.radii[i].explicit_text
        },
        None => default_radius_text(),
    }
}

/// Radius of an atom in thousandths of an ångström, or the default.
pub open spec fn radius_spec(t: TableView, residue: Seq<u8>, atom: Seq<u8>, use_united: bool) -> int {
    match rule_spec(t.patterns, t.radii, residue, atom) {
        Some(i) => if use_united {
            t.radii[i].united
        } else {
            t.radii[i].explicit
        },
        None => DEFAULT_RADIUS as int,
    }
}

/// The index that `rule_spec` gives.
#[verifier::spinoff_prover]
#[verifier::rlimit(40)]
fn find_rule(table: &RadiusTable, residue: &[u8], atom: &[u8]) -> (r: Option<usize>)
    ensures
        match r {
            Some(i) => rule_spec(table@.patterns, table@.radii, residue@, atom@) == Some(i as int) && i
                < table.radii.len(),
            None => rule_spec(table@.patterns, table@.radii, residue@, atom@) is None,
        },
{
    let ghost pv = table@.patterns;
    let ghost rv = table@.radii;
    let n = table.patterns.len();
    assert(pv.subrange(0, n as int) =~= pv);
    let mut t: usize = 0;
    while t < n
        invariant
            0 <= t <= n,
            n == table.patterns.len(),
            pv == table@.patterns,
            rv == table@.radii,
            rule_spec(pv, rv, residue@, atom@) == rule_spec(pv.subrange(t as int, n as int), rv, residue@, atom@),
        decreases n - t,
    {
        let entry = &table.patterns[t];
        let i = find_radius_exec(&table.radii, entry.key.as_slice());
        proof {
            let rest = pv.subrange(t as int, n as int);
            assert(rest[0] == pv[t as int]);
            assert(pv[t as int] == entry@);
            assert(rest.subrange(1, rest.len() as int) =~= pv.subrange(t + 1, n as int));
        }
        if crate::pattern::pattern_is_match(&entry.residue, residue) && crate::pattern::pattern_is_match(
            &entry.atom,
            atom,
        ) && i < table.radii.len() {
            return Some(i);
        }
        t = t + 1;
    }
    None
}

/// Radius of an atom in thousandths of an ångström (see `radius_spec`).
fn radius_for(residue: &[u8], atom: &[u8], use_united: bool, table: &RadiusTable) -> (r: i64)
    ensures
        r == radius_spec(table@, residue@, atom@, use_united),
{
    match find_rule(table, residue, atom) {
        Some(i) => if use_united {
            table.radii[i].united
        } else {
            table.radii[i].explicit
        },
        None => DEFAULT_RADIUS,
    }
}

/// Radius text of an atom (see `radius_text_spec`).
fn radius_text_for(residue: &[u8], atom: &[u8], use_united: bool, table: &RadiusTable) -> (r: Vec<u8>)
    ensures
        r@ == radius_text_spec(table@, residue@, atom@, use_united),
{
    match find_rule(table, residue, atom) {
        Some(i) => if use_united {
            copy_bytes(table.radii[i].united_text.as_slice())
        } else {
            copy_bytes(table.radii[i].explicit_text.as_slice())
        },
        None => {
            let r = vec![48u8, 46u8, 48u8, 49u8];
            assert(r@ =~= default_radius_text());
            r
        },
    }
}

/// A coordinate field's value in thousandths, zero when it does not parse.
pub open spec fn parse_float_spec(s: Seq<u8>) -> int {
    match parse_fixed_spec(trim_spec(s)) {
        Some(v) => v,
        None => 0,
    }
}

/// Parse a coordinate field (see `parse_float_spec`).
fn parse_float(s: &[u8]) -> (r: i64)
    ensures
        r == parse_float_spec(s@),
        crate::length_ok(r),
{
    let t = trim(s);
    match parse_fixed(t.as_slice()) {
        Some(v) => v,
        None => 0,
    }
}

/// `s` right-aligned in eight columns.
pub open spec fn pad8(s: Seq<u8>) -> Seq<u8> {
    if s.len() < 8 {
        Seq::new((8 - s.len()) as nat, |_i: int| 32u8) + s
    } else {
        s
    }
}

/// One XYZR output line: the trimmed coordinates right-aligned in eight
/// columns, then the radius text, separated by spaces.
pub open spec fn xyzr_line(r: RecordView, radius_text: Seq<u8>) -> Seq<u8> {
    pad8(trim_spec(r.x)) + seq![32u8] + pad8(trim_spec(r.y)) + seq![32u8] + pad8(trim_spec(r.z)) + seq![32u8]
        + radius_text + seq![10u8]
}

/// Whether record `r` (among all records `all`) survives the filters.
pub open spec fn kept(all: Seq<RecordView>, r: RecordView, f: Filters) -> bool {
    !filtered_spec(class_of(all, key_of(r)), f)
}

/// XYZR text of the kept records among `recs` (records of `all`).
pub open spec fn xyzr_text(all: Seq<RecordView>, recs: Seq<RecordView>, opts: PdbOptions, t: TableView) -> Seq<u8>
    decreases recs.len(),
{
    if recs.len() == 0 {
        Seq::empty()
    } else {
        let prev = xyzr_text(all, recs.drop_last(), opts, t);
        let r = recs.last();
        if kept(all, r, opts.filters) {
            prev + xyzr_line(r, radius_text_spec(t, r.residue, r.atom, opts.use_united))
        } else {
            prev
        }
    }
}

/// Number of kept records among `recs`.
pub open spec fn kept_count(all: Seq<RecordView>, recs: Seq<RecordView>, f: Filters) -> nat
    decreases recs.len(),
{
    if recs.len() == 0 {
        0
    } else {
        kept_count(all, recs.drop_last(), f) + if kept(all, recs.last(), f) {
            1nat
        } else {
            0nat
        }
    }
}

/// Atom of a kept record: parsed coordinates and the table's radius.
pub open spec fn atom_of(r: RecordView, opts: PdbOptions, t: TableView) -> crate::raster::Atom {
    crate::raster::Atom {
        x: parse_float_spec(r.x) as i64,
        y: parse_float_spec(r.y) as i64,
        z: parse_float_spec(r.z) as i64,
        radius: radius_spec(t, r.residue, r.atom, opts.use_united) as i64,
    }
}

/// Atoms of the kept records among `recs`.
pub open spec fn atoms_spec(all: Seq<RecordView>, recs: Seq<RecordView>, opts: PdbOptions, t: TableView) -> Seq<
    crate::raster::Atom,
>
    decreases recs.len(),
{
    if recs.len() == 0 {
        Seq::empty()
    } else {
        let prev = atoms_spec(all, recs.drop_last(), opts, t);
        let r = recs.last();
        if kept(all, r, opts.filters) {
            prev.push(atom_of(r, opts, t))
        } else {
            prev
        }
    }
}

/// `s` right-aligned in eight columns, appended to `out`.
fn push_pad8(out: &mut Vec<u8>, s: &[u8])
    ensures
        final(out)@ == old(out)@ + pad8(s@),
{
    if s.len() < 8 {
        let mut k: usize = s.len();
        while k < 8
            invariant
                s.len() <= k <= 8,
                out@ == old(out)@ + Seq::new((k - s.len()) as nat, |_i: int| 32u8),
            decreases 8 - k,
        {
            out.push(32u8);
            k = k + 1;
            assert(out@ =~= old(out)@ + Seq::new((k - s.len()) as nat, |_i: int| 32u8));
        }
    }
    concat_bytes(out, s);
    assert(final(out)@ =~= old(out)@ + pad8(s@));
}

/// Index of the residue with key `key`, if any.
fn find_residue(res: &Vec<ResidueInfo>, key: &[u8]) -> (r: Option<usize>)
    ensures
        match r {
            Some(i) => i < res.len() && res@[i as int].key@ == key@,
            None => forall|i: int| 0 <= i < res.len() ==> #[trigger] res@[i].key@ != key@,
        },
{
    let mut i: usize = 0;
    while i < res.len()
        invariant
            0 <= i <= res.len(),
            forall|t: int| 0 <= t < i ==> #[trigger] res@[t].key@ != key@,
        decreases res.len() - i,
    {
        if bytes_eq(res[i].key.as_slice(), key) {
            return Some(i);
        }
        i = i + 1;
    }
    None
}

/// Whether the record survives the filters (see `kept`).
fn keep_record(
    residues: &Vec<ResidueInfo>,
    rec: &AtomRecord,
    filters: &Filters,
    all: Ghost<Seq<RecordView>>,
) -> (r: bool)
    requires
        forall|i: int|
            0 <= i < residues.len() ==> #[trigger] residues@[i].class == class_of(all@, residues@[i].key@),
        keyed(residues@, key_of(rec@)),
    ensures
        r == kept(all@, rec@, *filters),
{
    let key = make_residue_key(rec);
    match find_residue(residues, key.as_slice()) {
        Some(i) => !should_filter(&residues[i], filters),
        None => true,
    }
}

/// Write the XYZR text (`x y z radius` per line) of the kept ATOM and
/// HETATM records of `lines`, with radius texts from `table`. Returns the
/// text and the number of lines written.
#[verifier::spinoff_prover]
#[verifier::rlimit(40)]
pub fn write_xyzr_from_reader(lines: &[Vec<u8>], opts: &PdbOptions, table: &RadiusTable) -> (r: (Vec<u8>, usize))
    ensures
        ({
            let recs = parse_lines(line_views(lines@));
            &&& r.0@ == xyzr_text(recs, recs, *opts, table@)
            &&& r.1 == kept_count(recs, recs, opts.filters)
        }),
{
    let atoms = parse_atom_records(lines);
    let residues = classify_residues(atoms.as_slice());
    let ghost recs = record_views(atoms@);
    let mut out: Vec<u8> = Vec::new();
    let mut count: usize = 0;
    let mut t: usize = 0;
    while t < atoms.len()
        invariant
            0 <= t <= atoms.len(),
            recs == record_views(atoms@),
            forall|i: int|
                0 <= i < residues.len() ==> has_key(recs, #[trigger] residues@[i].key@) && residues@[i].class
                    == class_of(recs, residues@[i].key@),
            forall|u: int| 0 <= u < atoms.len() ==> keyed(residues@, key_of(#[trigger] atoms@[u]@)),
            out@ == xyzr_text(recs, recs.subrange(0, t as int), *opts, table@),
            count == kept_count(recs, recs.subrange(0, t as int), opts.filters),
            count <= t,
        decreases atoms.len() - t,
    {
        let rec = &atoms[t];
        proof {
            assert(recs.subrange(0, t + 1).drop_last() =~= recs.subrange(0, t as int));
            assert(recs.subrange(0, t + 1).last() == rec@);
            assert(keyed(residues@, key_of(atoms@[t as int]@)));
        }
        if keep_record(&residues, rec, &opts.filters, Ghost(recs)) {
            let radius_text = radius_text_for(rec.residue.as_slice(), rec.atom.as_slice(), opts.use_united, table);
            let ghost before = out@;
            let tx = trim(rec.x.as_slice());
            let ty = trim(rec.y.as_slice());
            let tz = trim(rec.z.as_slice());
            push_pad8(&mut out, tx.as_slice());
            out.push(32u8);
            push_pad8(&mut out, ty.as_slice());
            out.push(32u8);
            push_pad8(&mut out, tz.as_slice());
            out.push(32u8);
            concat_bytes(&mut out, radius_text.as_slice());
            out.push(10u8);
            proof {
                assert(out@ =~= before + xyzr_line(rec@, radius_text@));
            }
            count = count + 1;
        }
        t = t + 1;
    }
    proof {
        assert(recs.subrange(0, atoms.len() as int) =~= recs);
    }
    (out, count)
}

/// Atoms of the kept ATOM and HETATM records of `lines`: coordinates in
/// thousandths of an ångström (zero where a field does not parse) and radii
/// from `table`.
#[verifier::spinoff_prover]
#[verifier::rlimit(40)]
pub fn load_atoms_from_reader(lines: &[Vec<u8>], opts: &PdbOptions, table: &RadiusTable) -> (r: Vec<
    crate::raster::Atom,
>)
    ensures
        ({
            let recs = parse_lines(line_views(lines@));
            r@ == atoms_spec(recs, recs, *opts, table@)
        }),
{
    let atoms = parse_atom_records(lines);
    let residues = classify_residues(atoms.as_slice());
    let ghost recs = record_views(atoms@);
    let mut out: Vec<crate::raster::Atom> = Vec::new();
    let mut t: usize = 0;
    while t < atoms.len()
        invariant
            0 <= t <= atoms.len(),
            recs == record_views(atoms@),
            forall|i: int|
                0 <= i < residues.len() ==> has_key(recs, #[trigger] residues@[i].key@) && residues@[i].class
                    == class_of(recs, residues@[i].key@),
            forall|u: int| 0 <= u < atoms.len() ==> keyed(residues@, key_of(#[trigger] atoms@[u]@)),
            out@ == atoms_spec(recs, recs.subrange(0, t as int), *opts, table@),
        decreases atoms.len() - t,
    {
        let rec = &atoms[t];
        proof {
            assert(recs.subrange(0, t + 1).drop_last() =~= recs.subrange(0, t as int));
            assert(recs.subrange(0, t + 1).last() == rec@);
            assert(keyed(residues@, key_of(atoms@[t as int]@)));
        }
        if keep_record(&residues, rec, &opts.filters, Ghost(recs)) {
            let radius = radius_for(rec.residue.as_slice(), rec.atom.as_slice(), opts.use_united, table);
            let atom = crate::raster::Atom {
                x: parse_float(rec.x.as_slice()),
                y: parse_float(rec.y.as_slice()),
                z: parse_float(rec.z.as_slice()),
                radius,
            };
            out.push(atom);
        }
        t = t + 1;
    }
    proof {
        assert(recs.subrange(0, atoms.len() as int) =~= recs);
    }
    out
}

/// Whether `p` occurs in `s` at index `i`.
pub open spec fn occurs_at(s: Seq<u8>, p: Seq<u8>, i: int) -> bool {
    0 <= i && i + p.len() <= s.len() && s.subrange(i, i + p.len()) == p
}

/// Index of the first occurrence of `p` in `s` at or after `from`, or -1.
pub open spec fn find_from(s: Seq<u8>, p: Seq<u8>, from: int) -> int
    decreases s.len() + 1 - from,
{
    if from < 0 || from + p.len() > s.len() {
        -1
    } else if occurs_at(s, p, from) {
        from
    } else {
        find_from(s, p, from + 1)
    }
}

/// `R"ATM(`, which opens the table text.
pub open spec fn open_marker() -> Seq<u8> {
    seq![82u8, 34u8, 65u8, 84u8, 77u8, 40u8]
}

/// `)ATM"`, which closes the table text.
pub open spec fn close_marker() -> Seq<u8> {
    seq![41u8, 65u8, 84u8, 77u8, 34u8]
}

/// The table text inside `raw`: from just after the first `R"ATM(` (or the
/// start) to the first `)ATM"` after that (or the end).
pub open spec fn table_text_spec(raw: Seq<u8>) -> Seq<u8> {
    let o = find_from(raw, open_marker(), 0);
    let start = if o >= 0 {
        o + 6
    } else {
        0
    };
    let c = find_from(raw, close_marker(), start);
    let end = if c >= 0 {
        c
    } else {
        raw.len() as int
    };
    raw.subrange(start, end)
}

/// First occurrence of `p` in `s` at or after `from`.
fn find_exec(s: &[u8], p: &[u8], from: usize) -> (r: Option<usize>)
    requires
        from <= s.len(),
    ensures
        match r {
            Some(i) => find_from(s@, p@, from as int) == i as int && i + p.len() <= s.len(),
            None => find_from(s@, p@, from as int) == -1,
        },
{
    let mut i: usize = from;
    while i <= s.len() && p.len() <= s.len() - i
        invariant
            from <= i,
            find_from(s@, p@, from as int) == find_from(s@, p@, i as int),
        decreases s.len() + 1 - i,
    {
        let mut k: usize = 0;
        let mut same = true;
        while k < p.len()
            invariant
                0 <= k <= p.len(),
                i + p.len() <= s.len(),
                same == forall|t: int| 0 <= t < k ==> s@[i + t] == p@[t],
            decreases p.len() - k,
        {
            if s[i + k] != p[k] {
                same = false;
            }
            k = k + 1;
        }
        proof {
            if same {
                assert(s@.subrange(i as int, i + p.len()) =~= p@);
            } else {
                let t = choose|t: int| 0 <= t < p.len() && s@[i + t] != p@[t];
                assert(s@.subrange(i as int, i + p.len())[t] != p@[t]);
            }
        }
        if same {
            return Some(i);
        }
        i = i + 1;
    }
    None
}

/// The radius table text inside a header that embeds it (see
/// `table_text_spec`).
pub fn load_atmtypenumbers_text(raw: &[u8]) -> (r: Vec<u8>)
    ensures
        r@ == table_text_spec(raw@),
{
    let open = vec![82u8, 34u8, 65u8, 84u8, 77u8, 40u8];
    let close = vec![41u8, 65u8, 84u8, 77u8, 34u8];
    assert(open@ =~= open_marker());
    assert(close@ =~= close_marker());
    let start = match find_exec(raw, open.as_slice(), 0) {
        Some(i) => i + 6,
        None => 0,
    };
    proof {
        if start > 0 {
            assert(occurs_at(raw@, open_marker(), start - 6)) by {
                lemma_find_occurs(raw@, open_marker(), 0);
            }
        }
    }
    let end = match find_exec(raw, close.as_slice(), start) {
        Some(i) => i,
        None => raw.len(),
    };
    proof {
        if end < raw.len() {
            lemma_find_occurs(raw@, close_marker(), start as int);
        }
    }
    let mut r: Vec<u8> = Vec::new();
    let mut i: usize = start;
    while i < end
        invariant
            start <= i <= end,
            end <= raw.len(),
            r@ == raw@.subrange(start as int, i as int),
        decreases end - i,
    {
        r.push(raw[i]);
        i = i + 1;
        assert(r@ =~= raw@.subrange(start as int, i as int));
    }
    r
}

proof fn lemma_find_occurs(s: Seq<u8>, p: Seq<u8>, from: int)
    ensures
        find_from(s, p, from) == -1 || (from <= find_from(s, p, from) && occurs_at(s, p, find_from(s, p, from))),
    decreases s.len() + 1 - from,
{
    if !(from < 0 || from + p.len() > s.len()) && !occurs_at(s, p, from) {
        lemma_find_occurs(s, p, from + 1);
    }
}

} // verus!
