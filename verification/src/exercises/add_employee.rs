//! A company register: who works in which department. An employee may be
//! in several departments, and is in none of them twice.

use vstd::prelude::*;
use vstd::string::*;

verus! {

/// The register, kept as the list of (employee, department) records in the
/// order in which they were added.
pub struct Company {
    records: Vec<(String, String)>,
}

/// The texts of a list of strings.
pub open spec fn texts(strings: Seq<String>) -> Seq<Seq<char>> {
    strings.map_values(|s: String| s@)
}

/// The departments of the records of `name`, in the order of the records.
pub open spec fn departments_in(
    records: Seq<(Seq<char>, Seq<char>)>,
    name: Seq<char>,
) -> Seq<Seq<char>>
    decreases records.len(),
{
    if records.len() == 0 {
        Seq::empty()
    } else {
        let before = departments_in(records.drop_last(), name);
        if records.last().0 == name {
            before.push(records.last().1)
        } else {
            before
        }
    }
}

/// The employees of the records of `department`, in the order of the records.
pub open spec fn employees_in(
    records: Seq<(Seq<char>, Seq<char>)>,
    department: Seq<char>,
) -> Seq<Seq<char>>
    decreases records.len(),
{
    if records.len() == 0 {
        Seq::empty()
    } else {
        let before = employees_in(records.drop_last(), department);
        if records.last().1 == department {
            before.push(records.last().0)
        } else {
            before
        }
    }
}

/// The departments that occur in the records, each once, in the order in
/// which they first occur.
pub open spec fn departments_among(records: Seq<(Seq<char>, Seq<char>)>) -> Seq<Seq<char>>
    decreases records.len(),
{
    if records.len() == 0 {
        Seq::empty()
    } else {
        let before = departments_among(records.drop_last());
        if before.contains(records.last().1) {
            before
        } else {
            before.push(records.last().1)
        }
    }
}

impl View for Company {
    type V = Seq<(Seq<char>, Seq<char>)>;

    /// The records as (employee, department) pairs of texts, oldest first.
    closed spec fn view(&self) -> Seq<(Seq<char>, Seq<char>)> {
        self.records@.map_values(|r: (String, String)| (r.0@, r.1@))
    }
}

impl Company {
    /// No record occurs twice.
    pub open spec fn wf(&self) -> bool {
        self@.no_duplicates()
    }

    /// A company without employees.
    pub fn new() -> (company: Company)
        ensures
            company@ == Seq::<(Seq<char>, Seq<char>)>::empty(),
            company.wf(),
    {
        let company = Company { records: Vec::new() };
        assert(company@ =~= Seq::<(Seq<char>, Seq<char>)>::empty());
        company
    }

    /// Adds an employee to a department. Says `true` where that record is
    /// new, and `false`, changing nothing, where the employee is in that
    /// department already.
    pub fn add_employee(&mut self, name: &str, department: &str) -> (added: bool)
        requires
            old(self).wf(),
        ensures
            final(self).wf(),
            added == !old(self)@.contains((name@, department@)),
            added ==> final(self)@ == old(self)@.push((name@, department@)),
            !added ==> final(self)@ == old(self)@,
    {
        let employee = String::from_str(name);
        let unit = String::from_str(department);
        let mut i: usize = 0;
        while i < self.records.len()
            invariant
                i <= self.records@.len(),
                self.records@ == old(self).records@,
                self.wf(),
                employee@ == name@,
                unit@ == department@,
                forall|k: int| 0 <= k < i ==> self@[k] != (name@, department@),
            decreases self.records@.len() - i,
        {
            if self.records[i].0 == employee && self.records[i].1 == unit {
                assert(old(self)@[i as int] == (name@, department@));
                return false;
            }
            i += 1;
        }
        self.records.push((employee, unit));
        assert(self@ =~= old(self)@.push((name@, department@)));
        true
    }

    /// The departments of an employee, in the order in which they were
    /// added; none for an employee that the register does not know.
    pub fn departments_of(&self, name: &str) -> (departments: Vec<String>)
        ensures
            texts(departments@) == departments_in(self@, name@),
    {
        let employee = String::from_str(name);
        let mut departments: Vec<String> = Vec::new();
        let mut i: usize = 0;
        assert(self@.take(0) =~= Seq::empty());
        while i < self.records.len()
            invariant
                i <= self.records@.len(),
                employee@ == name@,
                texts(departments@) =~= departments_in(self@.take(i as int), name@),
            decreases self.records@.len() - i,
        {
            assert(self@.take(i + 1).drop_last() =~= self@.take(i as int));
            let ghost found = departments@;
            if self.records[i].0 == employee {
                departments.push(self.records[i].1.clone());
                assert(texts(departments@) =~= texts(found).push(self@[i as int].1));
            }
            i += 1;
        }
        assert(self@.take(i as int) =~= self@);
        departments
    }

    /// The employees of a department, in the order in which they were
    /// added; none for a department that the register does not know.
    pub fn employees_of(&self, department: &str) -> (employees: Vec<String>)
        ensures
            texts(employees@) == employees_in(self@, department@),
    {
        let unit = String::from_str(department);
        let mut employees: Vec<String> = Vec::new();
        let mut i: usize = 0;
        assert(self@.take(0) =~= Seq::empty());
        while i < self.records.len()
            invariant
                i <= self.records@.len(),
                unit@ == department@,
                texts(employees@) =~= employees_in(self@.take(i as int), department@),
            decreases self.records@.len() - i,
        {
            assert(self@.take(i + 1).drop_last() =~= self@.take(i as int));
            let ghost found = employees@;
            if self.records[i].1 == unit {
                employees.push(self.records[i].0.clone());
                assert(texts(employees@) =~= texts(found).push(self@[i as int].0));
            }
            i += 1;
        }
        assert(self@.take(i as int) =~= self@);
        employees
    }

    /// The departments of the company, each once, in the order in which they
    /// first got an employee.
    pub fn departments(&self) -> (departments: Vec<String>)
        ensures
            texts(departments@) == departments_among(self@),
    {
        let mut departments: Vec<String> = Vec::new();
        let mut i: usize = 0;
        assert(self@.take(0) =~= Seq::empty());
        while i < self.records.len()
            invariant
                i <= self.records@.len(),
                texts(departments@) =~= departments_among(self@.take(i as int)),
            decreases self.records@.len() - i,
        {
            assert(self@.take(i + 1).drop_last() =~= self@.take(i as int));
            let ghost found = departments@;
            let mut known = false;
            let mut k: usize = 0;
            while k < departments.len()
                invariant
                    k <= departments@.len(),
                    i < self.records@.len(),
                    known == exists|j: int| 0 <= j < k && texts(departments@)[j] == self@[i as int].1,
                decreases departments@.len() - k,
            {
                if departments[k] == self.records[i].1 {
                    assert(texts(departments@)[k as int] == self@[i as int].1);
                    known = true;
                }
                k += 1;
            }
            assert(known == texts(departments@).contains(self@[i as int].1));
            if !known {
                departments.push(self.records[i].1.clone());
                assert(texts(departments@) =~= texts(found).push(self@[i as int].1));
            }
            i += 1;
        }
        assert(self@.take(i as int) =~= self@);
        departments
    }

    /// Whether nobody has been added yet.
    pub fn is_empty(&self) -> (empty: bool)
        ensures
            empty == (self@.len() == 0),
    {
        self.records.len() == 0
    }
}

} // verus!
