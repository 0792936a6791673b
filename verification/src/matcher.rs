use vstd::prelude::*;

verus! {

/// A job posting a company advertises.
#[derive(Clone, Debug, PartialEq)]
pub struct JobPosting {
    pub id: u64,
    pub title: String,
    pub description: String,
    pub required_skills: Vec<String>,
}

/// Mathematical image of a `JobPosting`.
pub ghost struct JobPostingV {
    pub id: u64,
    pub title: Seq<char>,
    pub description: Seq<char>,
    pub required_skills: Seq<Seq<char>>,
}

impl DeepView for JobPosting {
    type V = JobPostingV;

    open spec fn deep_view(&self) -> JobPostingV {
        JobPostingV {
            id: self.id,
            title: self.title@,
            description: self.description@,
            required_skills: self.required_skills.deep_view(),
        }
    }
}

/// A job seeker and the skills they bring.
#[derive(Clone, Debug, PartialEq, Eq, Hash)]
pub struct Employee {
    pub id: u64,
    pub name: String,
    pub skills: Vec<String>,
}

/// Mathematical image of an `Employee`.
pub ghost struct EmployeeV {
    pub id: u64,
    pub name: Seq<char>,
    pub skills: Seq<Seq<char>>,
}

impl DeepView for Employee {
    type V = EmployeeV;

    open spec fn deep_view(&self) -> EmployeeV {
        EmployeeV { id: self.id, name: self.name@, skills: self.skills.deep_view() }
    }
}

/// A company and the postings it advertises.
#[derive(Clone, Debug, PartialEq)]
pub struct Company {
    pub id: u64,
    pub name: String,
    pub job_postings: Vec<JobPosting>,
}

/// Mathematical image of a `Company`.
pub ghost struct CompanyV {
    pub id: u64,
    pub name: Seq<char>,
    pub job_postings: Seq<JobPostingV>,
}

impl DeepView for Company {
    type V = CompanyV;

    open spec fn deep_view(&self) -> CompanyV {
        CompanyV { id: self.id, name: self.name@, job_postings: self.job_postings.deep_view() }
    }
}

/// A posting suits an employee when every required skill is among the
/// employee's skills.
pub open spec fn skill_match(p: JobPostingV, skills: Seq<Seq<char>>) -> bool {
    forall|i: int|
        0 <= i < p.required_skills.len() ==> skills.contains(#[trigger] p.required_skills[i])
}

/// All postings of all companies, company by company, in order.
pub open spec fn postings_of(companies: Seq<CompanyV>) -> Seq<JobPostingV>
    decreases companies.len(),
{
    if companies.len() == 0 {
        Seq::empty()
    } else {
        companies[0].job_postings + postings_of(companies.drop_first())
    }
}

/// The postings, in order, that suit an employee with `skills`.
pub open spec fn matches_for(skills: Seq<Seq<char>>, companies: Seq<CompanyV>) -> Seq<JobPostingV> {
    postings_of(companies).filter(|p: JobPostingV| skill_match(p, skills))
}

proof fn lemma_postings_of_snoc(companies: Seq<CompanyV>, c: CompanyV)
    ensures
        postings_of(companies.push(c)) == postings_of(companies) + c.job_postings,
    decreases companies.len(),
{
    if companies.len() == 0 {
        assert(companies.push(c)[0] == c);
        assert(companies.push(c).drop_first() =~= Seq::<CompanyV>::empty());
        assert(postings_of(Seq::<CompanyV>::empty()) == Seq::<JobPostingV>::empty());
        assert(postings_of(companies.push(c)) =~= postings_of(companies) + c.job_postings);
    } else {
        assert(companies.push(c).drop_first() =~= companies.drop_first().push(c));
        lemma_postings_of_snoc(companies.drop_first(), c);
        assert(companies.push(c)[0] == companies[0]);
        assert(postings_of(companies.push(c)) == companies[0].job_postings + (postings_of(
            companies.drop_first(),
        ) + c.job_postings));
        assert(companies[0].job_postings + (postings_of(companies.drop_first()) + c.job_postings)
            =~= (companies[0].job_postings + postings_of(companies.drop_first()))
            + c.job_postings);
    }
}

proof fn lemma_filter_snoc(s: Seq<JobPostingV>, x: JobPostingV, pred: spec_fn(JobPostingV) -> bool)
    ensures
        s.push(x).filter(pred) == s.filter(pred) + (if pred(x) {
            seq![x]
        } else {
            Seq::empty()
        }),
{
    reveal(Seq::filter);
    assert(s.push(x).drop_last() =~= s);
    assert(s.push(x).last() == x);
    if pred(x) {
        assert(s.push(x).filter(pred) =~= s.filter(pred) + seq![x]);
    } else {
        assert(s.push(x).filter(pred) =~= s.filter(pred) + Seq::<JobPostingV>::empty());
    }
}

fn clone_string(s: &String) -> (res: String)
    ensures
        res@ == s@,
{
    s.clone()
}

fn clone_strings(v: &Vec<String>) -> (res: Vec<String>)
    ensures
        res.deep_view() == v.deep_view(),
{
    let mut out: Vec<String> = Vec::new();
    let n = v.len();
    let mut i: usize = 0;
    while i < n
        invariant
            i <= n,
            n == v@.len(),
            out@.len() == i,
            forall|q: int| 0 <= q < i ==> (#[trigger] out@[q])@ == v@[q]@,
        decreases n - i,
    {
        out.push(clone_string(&v[i]));
        i = i + 1;
    }
    proof {
        assert(out.deep_view() =~= v.deep_view());
    }
    out
}

fn clone_posting(p: &JobPosting) -> (res: JobPosting)
    ensures
        res.deep_view() == p.deep_view(),
{
    JobPosting {
        id: p.id,
        title: clone_string(&p.title),
        description: clone_string(&p.description),
        required_skills: clone_strings(&p.required_skills),
    }
}

fn clone_employee(e: &Employee) -> (res: Employee)
    ensures
        res.deep_view() == e.deep_view(),
{
    Employee { id: e.id, name: clone_string(&e.name), skills: clone_strings(&e.skills) }
}

fn has_skill(skills: &Vec<String>, wanted: &String) -> (res: bool)
    ensures
        res == skills.deep_view().contains(wanted@),
{
    let n = skills.len();
    let mut i: usize = 0;
    while i < n
        invariant
            i <= n,
            n == skills@.len(),
            forall|q: int| 0 <= q < i ==> (#[trigger] skills@[q])@ != wanted@,
        decreases n - i,
    {
        if wanted.eq(&skills[i]) {
            proof {
                assert(skills.deep_view()[i as int] == wanted@);
            }
            return true;
        }
        i = i + 1;
    }
    proof {
        if skills.deep_view().contains(wanted@) {
            let q = choose|q: int|
                0 <= q < skills.deep_view().len() && skills.deep_view()[q] == wanted@;
            assert(skills@[q]@ != wanted@);
        }
    }
    false
}

fn posting_suits(p: &JobPosting, skills: &Vec<String>) -> (res: bool)
    ensures
        res == skill_match(p.deep_view(), skills.deep_view()),
{
    let n = p.required_skills.len();
    let mut i: usize = 0;
    while i < n
        invariant
            i <= n,
            n == p.required_skills@.len(),
            forall|q: int|
                0 <= q < i ==> skills.deep_view().contains(
                    #[trigger] p.deep_view().required_skills[q],
                ),
        decreases n - i,
    {
        if !has_skill(skills, &p.required_skills[i]) {
            proof {
                assert(p.deep_view().required_skills[i as int] == p.required_skills@[i as int]@);
            }
            return false;
        }
        proof {
            assert(p.deep_view().required_skills[i as int] == p.required_skills@[i as int]@);
        }
        i = i + 1;
    }
    true
}

/// Pairs employees with the postings that suit them, over plain in-memory
/// vectors.
#[derive(Debug)]
pub struct JobMatcher {
    pub companies: Vec<Company>,
    pub employees: Vec<Employee>,
}

impl JobMatcher {
    /// A matcher with no companies and no employees.
    pub fn new() -> (res: Self)
        ensures
            res.companies@.len() == 0,
            res.employees@.len() == 0,
    {
        JobMatcher { companies: Vec::new(), employees: Vec::new() }
    }

    /// Registers a company and its postings.
    pub fn add_company(&mut self, company: Company)
        ensures
            final(self).companies@ == old(self).companies@.push(company),
            final(self).employees@ == old(self).employees@,
    {
        self.companies.push(company);
    }

    /// Registers an employee.
    pub fn add_employee(&mut self, employee: Employee)
        ensures
            final(self).employees@ == old(self).employees@.push(employee),
            final(self).companies@ == old(self).companies@,
    {
        self.employees.push(employee);
    }

    /// For every employee, in order, the postings (over all companies, in
    /// order) whose required skills the employee all has.
    #[verifier::loop_isolation(false)]
    pub fn match_jobs(&self) -> (res: Vec<(Employee, Vec<JobPosting>)>)
        ensures
            res@.len() == self.employees@.len(),
            forall|i: int|
                0 <= i < res@.len() ==> (#[trigger] res@[i]).0.deep_view()
                    == self.employees@[i].deep_view() && res@[i].1.deep_view() == matches_for(
                    self.employees@[i].deep_view().skills,
                    self.companies.deep_view(),
                ),
    {
        let mut out: Vec<(Employee, Vec<JobPosting>)> = Vec::new();
        let ne = self.employees.len();
        let mut e: usize = 0;
        while e < ne
            invariant
                e <= ne,
                out@.len() == e,
                forall|i: int|
                    0 <= i < e ==> (#[trigger] out@[i]).0.deep_view()
                        == self.employees@[i].deep_view() && out@[i].1.deep_view() == matches_for(
                        self.employees@[i].deep_view().skills,
                        self.companies.deep_view(),
                    ),
            decreases ne - e,
        {
            let employee = &self.employees[e];
            let ghost skills = employee.deep_view().skills;
            let ghost pred = |p: JobPostingV| skill_match(p, skills);
            let mut found: Vec<JobPosting> = Vec::new();
            let nc = self.companies.len();
            let mut c: usize = 0;
            while c < nc
                invariant
                    c <= nc,
                    skills == self.employees@[e as int].deep_view().skills,
                    pred == (|p: JobPostingV| skill_match(p, skills)),
                    found.deep_view() == postings_of(
                        self.companies.deep_view().take(c as int),
                    ).filter(pred),
                decreases nc - c,
            {
                let company = &self.companies[c];
                let np = company.job_postings.len();
                let ghost cv = self.companies.deep_view();
                let mut k: usize = 0;
                while k < np
                    invariant
                        k <= np,
                        np == company.job_postings@.len(),
                        company == &self.companies[c as int],
                        c < nc,
                        skills == self.employees@[e as int].deep_view().skills,
                        pred == (|p: JobPostingV| skill_match(p, skills)),
                        found.deep_view() == (postings_of(cv.take(c as int))
                            + company.deep_view().job_postings.take(k as int)).filter(pred),
                    decreases np - k,
                {
                    let ghost pre = found.deep_view();
                    let ghost scanned = postings_of(cv.take(c as int))
                        + company.deep_view().job_postings.take(k as int);
                    let ghost pk = company.deep_view().job_postings[k as int];
                    if posting_suits(&company.job_postings[k], &employee.skills) {
                        found.push(clone_posting(&company.job_postings[k]));
                        proof {
                            assert(pk == company.job_postings@[k as int].deep_view());
                            assert(pred(pk));
                            lemma_filter_snoc(scanned, pk, pred);
                            assert(found.deep_view() =~= pre.push(pk));
                            assert(scanned.push(pk) =~= postings_of(cv.take(c as int))
                                + company.deep_view().job_postings.take(k as int + 1));
                            assert(found.deep_view() =~= (postings_of(cv.take(c as int))
                                + company.deep_view().job_postings.take(k as int + 1)).filter(
                                pred,
                            ));
                        }
                    } else {
                        proof {
                            assert(pk == company.job_postings@[k as int].deep_view());
                            assert(!pred(pk));
                            lemma_filter_snoc(scanned, pk, pred);
                            assert(scanned.push(pk) =~= postings_of(cv.take(c as int))
                                + company.deep_view().job_postings.take(k as int + 1));
                            assert(found.deep_view() =~= (postings_of(cv.take(c as int))
                                + company.deep_view().job_postings.take(k as int + 1)).filter(
                                pred,
                            ));
                        }
                    }
                    k = k + 1;
                }
                proof {
                    let cv2 = self.companies.deep_view();
                    assert(company.deep_view().job_postings.take(np as int)
                        =~= company.deep_view().job_postings);
                    assert(cv2.take(c as int).push(company.deep_view()) =~= cv2.take(c as int + 1));
                    lemma_postings_of_snoc(cv2.take(c as int), company.deep_view());
                    assert(postings_of(cv2.take(c as int)) + company.deep_view().job_postings
                        =~= postings_of(cv2.take(c as int + 1)));
                }
                c = c + 1;
            }
            proof {
                assert(self.companies.deep_view().take(nc as int) =~= self.companies.deep_view());
            }
            out.push((clone_employee(employee), found));
            e = e + 1;
        }
        out
    }
}

} // verus!
