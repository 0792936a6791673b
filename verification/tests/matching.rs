use block_employ::matcher::{Company, Employee, JobMatcher, JobPosting};

fn strings(items: &[&str]) -> Vec<String> {
    items.iter().map(|s| String::from(*s)).collect()
}

fn sample_company() -> Company {
    Company {
        id: 1,
        name: String::from("Company A"),
        job_postings: vec![
            JobPosting {
                id: 1,
                title: String::from("Software Engineer"),
                description: String::from("Develop software applications"),
                required_skills: strings(&["Programming", "Problem Solving"]),
            },
            JobPosting {
                id: 2,
                title: String::from("Data Scientist"),
                description: String::from("Analyze and interpret complex datasets"),
                required_skills: strings(&["Data Analysis", "Statistics"]),
            },
        ],
    }
}

#[test]
fn matches_pair_each_employee_with_suitable_postings() {
    let mut matcher = JobMatcher::new();
    matcher.add_company(sample_company());
    matcher.add_employee(Employee {
        id: 1,
        name: String::from("John Doe"),
        skills: strings(&["Programming", "Problem Solving"]),
    });
    matcher.add_employee(Employee {
        id: 2,
        name: String::from("Jane Doe"),
        skills: strings(&["Data Analysis", "Statistics"]),
    });

    let matches = matcher.match_jobs();
    assert_eq!(matches.len(), 2);

    assert_eq!(matches[0].0.name, "John Doe");
    assert_eq!(matches[0].1.len(), 1);
    assert_eq!(matches[0].1[0].title, "Software Engineer");

    assert_eq!(matches[1].0.name, "Jane Doe");
    assert_eq!(matches[1].1.len(), 1);
    assert_eq!(matches[1].1[0].title, "Data Scientist");
}

#[test]
fn posting_with_no_requirements_suits_everyone() {
    let mut matcher = JobMatcher::new();
    matcher.add_company(Company {
        id: 3,
        name: String::from("Open Arms Inc"),
        job_postings: vec![JobPosting {
            id: 9,
            title: String::from("Anything"),
            description: String::from("No requirements"),
            required_skills: Vec::new(),
        }],
    });
    matcher.add_employee(Employee {
        id: 4,
        name: String::from("Newcomer"),
        skills: Vec::new(),
    });
    let matches = matcher.match_jobs();
    assert_eq!(matches.len(), 1);
    assert_eq!(matches[0].1.len(), 1);
    assert_eq!(matches[0].1[0].id, 9);
}

#[test]
fn employee_missing_one_skill_gets_no_match() {
    let mut matcher = JobMatcher::new();
    matcher.add_company(sample_company());
    matcher.add_employee(Employee {
        id: 5,
        name: String::from("Half Ready"),
        skills: strings(&["Programming"]),
    });
    let matches = matcher.match_jobs();
    assert_eq!(matches.len(), 1);
    assert!(matches[0].1.is_empty());
}

#[test]
fn postings_keep_company_order() {
    let mut matcher = JobMatcher::new();
    matcher.add_company(sample_company());
    let mut second = sample_company();
    second.id = 2;
    second.name = String::from("Company B");
    second.job_postings[0].id = 11;
    second.job_postings[1].id = 12;
    matcher.add_company(second);
    matcher.add_employee(Employee {
        id: 6,
        name: String::from("Generalist"),
        skills: strings(&[
            "Programming",
            "Problem Solving",
            "Data Analysis",
            "Statistics",
        ]),
    });
    let matches = matcher.match_jobs();
    let ids: Vec<u64> = matches[0].1.iter().map(|p| p.id).collect();
    assert_eq!(ids, vec![1, 2, 11, 12]);
}
