use proxrs::base64::{decode, encode};
use proxrs::batch::{split_batches, RoundPlan, Step, BATCH_SIZE};
use proxrs::rename::{
    apply_template, assign_unique_names, is_already_formatted, release_name, IpDetail,
};
use proxrs::text::{count_char, decimal_of, join_char, split_char};

fn chars(s: &str) -> Vec<char> {
    s.chars().collect()
}

#[test]
fn test_rename_pattern() {
    let count = count_char(&chars("${COUNTRYCODE}_${CITY}_${ISP}"), '_');
    println!("{count}");
    assert_eq!(count, 2);
    let count = count_char(&chars("HongKong_Jordan_VertexConnectivityLLC62"), '_');
    println!("{count}");
    assert_eq!(count, 2);
    assert!(is_already_formatted(
        "HongKong_Jordan_VertexConnectivityLLC62",
        "${COUNTRYCODE}_${CITY}_${ISP}"
    ));
}

#[test]
fn formatted_names_with_github_are_renamed() {
    assert!(!is_already_formatted("a_github.com_b", "${COUNTRYCODE}_${CITY}_${ISP}"));
    assert!(!is_already_formatted("plain name", "${COUNTRYCODE}_${CITY}_${ISP}"));
}

#[test]
fn template_is_filled() {
    let detail = IpDetail {
        country_code: "HK".to_string(),
        isp: "Provider".to_string(),
        city: String::new(),
    };
    assert_eq!(
        apply_template("${COUNTRYCODE}_${ISP}", "1.2.3.4", &detail),
        "HK_Provider"
    );
    assert_eq!(
        apply_template("${IP}-${CITY}-${IP}", "1.2.3.4", &detail),
        "1.2.3.4--1.2.3.4"
    );
}

#[test]
fn colliding_names_get_numbers() {
    let names = vec![
        "HK_Provider".to_string(),
        "US_Other".to_string(),
        "HK_Provider".to_string(),
        "HK_Provider".to_string(),
    ];
    assert_eq!(
        assign_unique_names(&names),
        vec![
            "HK_Provider".to_string(),
            "US_Other".to_string(),
            "HK_Provider1".to_string(),
            "HK_Provider2".to_string(),
        ]
    );
}

#[test]
fn batches_of_450() {
    let items: Vec<u32> = (0..450).collect();
    let batches = split_batches(items, BATCH_SIZE);
    assert_eq!(batches.len(), 3);
    assert!(batches.iter().all(|b| b.len() <= 200 && !b.is_empty()));
    assert_eq!(batches[2].len(), 50);
    let flat: Vec<u32> = batches.into_iter().flatten().collect();
    assert_eq!(flat, (0..450).collect::<Vec<u32>>());
    assert_eq!(split_batches(Vec::<u32>::new(), BATCH_SIZE).len(), 0);
    assert_eq!(split_batches((0..400).collect::<Vec<u32>>(), BATCH_SIZE).len(), 2);
}

#[test]
fn round_plan_warms_up_then_measures_ten() {
    let mut plan = RoundPlan::new();
    let mut warm = 0;
    let mut measured = 0;
    loop {
        match plan.next_step() {
            Step::WarmUp => {
                warm += 1;
                plan.record(Some(vec![("w".to_string(), 1)]));
            }
            Step::Measure => {
                measured += 1;
                let outcome = if measured == 3 { None } else { Some(vec![("n".to_string(), 5)]) };
                plan.record(outcome);
            }
            Step::Finished => break,
        }
    }
    assert_eq!(warm, 2);
    assert_eq!(measured, 10);
    assert_eq!(plan.results.len(), 9);
    assert!(plan.results.iter().all(|r| r[0].0 == "n"));
}

#[test]
fn base64_known_values() {
    assert_eq!(encode(&b"Man".to_vec()), b"TWFu".to_vec());
    assert_eq!(encode(&b"Ma".to_vec()), b"TWE=".to_vec());
    assert_eq!(encode(&b"M".to_vec()), b"TQ==".to_vec());
    assert_eq!(decode(&b"TWE=".to_vec()), Some(b"Ma".to_vec()));
    assert_eq!(decode(&b"TWE".to_vec()), Some(b"Ma".to_vec()));
    assert_eq!(decode(&b"T".to_vec()), None);
    assert_eq!(decode(&b"T*E=".to_vec()), None);
}

#[test]
fn split_join_and_decimal() {
    let parts = split_char(&chars("h2,http/1.1"), ',');
    assert_eq!(parts, vec!["h2".to_string(), "http/1.1".to_string()]);
    assert_eq!(split_char(&chars(""), ','), vec![String::new()]);
    assert_eq!(join_char(&parts, ','), chars("h2,http/1.1"));
    assert_eq!(decimal_of(1203), chars("1203"));
    assert_eq!(decimal_of(0), chars("0"));
}

#[test]
fn release_name_falls_back_to_address_then_name() {
    let current = "old".to_string();
    assert_eq!(release_name(&Some("HK_X".to_string()), &Some("1.1.1.1".to_string()), &current), "HK_X");
    assert_eq!(release_name(&None, &Some("1.1.1.1".to_string()), &current), "1.1.1.1");
    assert_eq!(release_name(&None, &None, &current), "old");
}
