//! Subjects: the acting programs, their current labels and what they read.

use vstd::prelude::*;

use crate::lattice::{
    compare_values, create_lattice, Lattice, LatticePair, LatticeType, LatticeValue, Order,
};
use crate::permission::LabelResponse;
use crate::text::{clone_texts, str_eq, texts};

verus! {

/// An acting program.
#[derive(Debug)]
pub struct Program {
    /// The name of the program itself.
    pub program_name: String,
    /// The names of the resources it has opened, each once.
    pub resources: Vec<String>,
    /// Its current integrity label.
    pub integrity: LatticePair,
    /// Its current confidentiality label.
    pub confidentiality: LatticePair,
    /// Whether it is an attested program with a fixed dual label.
    pub gate: bool,
}

impl Clone for Program {
    fn clone(&self) -> (p: Program)
        ensures
            p.program_name@ == self.program_name@,
            texts(p.resources@) == texts(self.resources@),
            p.integrity == self.integrity,
            p.confidentiality == self.confidentiality,
            p.gate == self.gate,
    {
        Program {
            program_name: self.program_name.clone(),
            resources: clone_texts(&self.resources),
            integrity: self.integrity,
            confidentiality: self.confidentiality,
            gate: self.gate,
        }
    }
}

/// The two labels of a subject, and whether it is gated.
pub struct Standing {
    pub integrity: LatticePair,
    pub confidentiality: LatticePair,
    pub gate: bool,
}

/// The standing of a subject after it opened a resource and received
/// `resp`. A gated subject keeps its standing. A gate response fixes both
/// labels and gates the subject. A confidentiality response replaces the
/// integrity label where the current one compares greater.
pub open spec fn after_open(s: Standing, resp: Option<LabelResponse>) -> Standing {
    if s.gate {
        s
    } else {
        match resp {
            Some(LabelResponse::Confidentiality(labels)) => if compare_values(
                s.integrity.1,
                labels.1,
            ) == Order::Greater {
                Standing { integrity: labels, confidentiality: s.confidentiality, gate: false }
            } else {
                s
            },
            Some(LabelResponse::Gate { integrity, confidentiality }) => Standing {
                integrity,
                confidentiality,
                gate: true,
            },
            None => s,
        }
    }
}

impl Program {
    /// Whether no resource is recorded twice.
    pub open spec fn wf(&self) -> bool {
        texts(self.resources@).no_duplicates()
    }

    /// The two labels of this subject, and whether it is gated.
    pub open spec fn standing(&self) -> Standing {
        Standing {
            integrity: self.integrity,
            confidentiality: self.confidentiality,
            gate: self.gate,
        }
    }

    /// The set of resources this subject has opened.
    pub open spec fn resource_set(&self) -> Set<Seq<char>> {
        texts(self.resources@).to_set()
    }

    /// A subject on its first observed activity. An ordinary label gives it
    /// that confidentiality and the default integrity; a gate label gives
    /// it both labels and gates it.
    pub fn new(program_name: String, label: LabelResponse) -> (p: Program)
        ensures
            p.wf(),
            p.program_name == program_name,
            p.resources@.len() == 0,
            p.standing() == match label {
                LabelResponse::Confidentiality(label) => Standing {
                    integrity: (LatticeType::LinearNumber, LatticeValue::Number(3)),
                    confidentiality: label,
                    gate: false,
                },
                LabelResponse::Gate { integrity, confidentiality } => Standing {
                    integrity,
                    confidentiality,
                    gate: true,
                },
            },
    {
        match label {
            LabelResponse::Confidentiality(label) => Program {
                program_name,
                resources: Vec::new(),
                integrity: crate::lattice::lattice_pair_default(),
                confidentiality: label,
                gate: false,
            },
            LabelResponse::Gate { integrity, confidentiality } => Program {
                program_name,
                resources: Vec::new(),
                integrity,
                confidentiality,
                gate: true,
            },
        }
    }

    /// Whether `file` is among the resources recorded.
    pub fn has_resource(&self, file: &str) -> (b: bool)
        ensures
            b == self.resource_set().contains(file@),
    {
        let mut i: usize = 0;
        while i < self.resources.len()
            invariant
                i <= self.resources.len(),
                forall|j: int| 0 <= j < i ==> texts(self.resources@)[j] != file@,
            decreases self.resources.len() - i,
        {
            if str_eq(self.resources[i].as_str(), file) {
                assert(texts(self.resources@)[i as int] == file@);
                return true;
            }
            i = i + 1;
        }
        false
    }

    /// Records that this subject opened `file` and received `resp`.
    pub fn open(&mut self, file: String, resp: Option<LabelResponse>)
        requires
            old(self).wf(),
        ensures
            final(self).wf(),
            final(self).program_name == old(self).program_name,
            final(self).standing() == after_open(old(self).standing(), resp),
            final(self).resource_set() == if file@ != old(self).program_name@ {
                old(self).resource_set().insert(file@)
            } else {
                old(self).resource_set()
            },
            texts(final(self).resources@) == if file@ != old(self).program_name@ && !old(self).resource_set().contains(file@) {
                texts(old(self).resources@).push(file@)
            } else {
                texts(old(self).resources@)
            },
    {
        // Gates keep their current privilege level.
        if !self.gate {
            match resp {
                // Reading something of lower integrity taints the subject.
                Some(LabelResponse::Confidentiality(labels)) => {
                    let lattice = create_lattice(&self.integrity.0);
                    match lattice.compare(&self.integrity.1, &labels.1) {
                        Order::Greater => {
                            self.integrity = labels;
                        },
                        _ => {},
                    }
                },
                // A gate grants its fixed labels for good.
                Some(LabelResponse::Gate { integrity, confidentiality }) => {
                    self.integrity = integrity;
                    self.confidentiality = confidentiality;
                    self.gate = true;
                },
                None => {},
            }
        }
        if !str_eq(file.as_str(), self.program_name.as_str()) {
            if !self.has_resource(file.as_str()) {
                let ghost before = texts(self.resources@);
                self.resources.push(file);
                proof {
                    assert(texts(self.resources@) =~= before.push(file@));
                    assert(before.push(file@).to_set() =~= before.to_set().insert(file@)) by {
                        assert forall|k: Seq<char>|
                            before.push(file@).to_set().contains(k) <==> before.to_set().insert(
                                file@,
                            ).contains(k) by {
                            if before.push(file@).contains(k) {
                                let i = choose|i: int|
                                    0 <= i < before.push(file@).len() && before.push(file@)[i] == k;
                                if i < before.len() {
                                    assert(before[i] == k);
                                }
                            }
                            if before.contains(k) {
                                let i = choose|i: int| 0 <= i < before.len() && before[i] == k;
                                assert(before.push(file@)[i] == k);
                            }
                            if k == file@ {
                                assert(before.push(file@)[before.len() as int] == k);
                            }
                        }
                    }
                }
            } else {
                assert(self.resource_set().insert(file@) =~= self.resource_set());
            }
        }
    }
}

/// Taint only degrades. Opening a resource never leaves a subject with an
/// integrity that compares greater than the one it had, unless a gate
/// fixed its labels; and a gated subject keeps its standing whatever it
/// opens.
pub proof fn law_taint_degrades(s: Standing, resp: Option<LabelResponse>)
    ensures
        s.gate ==> after_open(s, resp) == s,
        !(resp matches Some(LabelResponse::Gate { .. })) ==> compare_values(
            after_open(s, resp).integrity.1,
            s.integrity.1,
        ) != Order::Greater && after_open(s, resp).confidentiality == s.confidentiality
            && after_open(s, resp).gate == s.gate,
        !s.gate ==> (resp matches Some(LabelResponse::Gate { integrity, confidentiality })
            ==> after_open(s, resp) == (Standing { integrity, confidentiality, gate: true })),
{
}

} // verus!
