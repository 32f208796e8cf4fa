use factorion::math::{factorial, Approximator, Mantissa};
use factorion::reddit_comment::{
    approximations_wanted, CalculatedFactorial, Factorial, RedditComment, Status,
};
use num_bigint::ToBigInt;

/// Approximations by floating-point arithmetic, as a program around the
/// library would supply them.
struct FloatApproximator;

impl Approximator for FloatApproximator {
    fn approximate_factorial(&self, n: u64) -> (Mantissa, u64) {
        let n = n as f64;
        let base = n / std::f64::consts::E;
        let ten_in_base = 10.0f64.log(base);
        let extra = (n / ten_in_base) as u64;
        let exponent = n - ten_in_base * extra as f64;
        let mut factorial = base.powf(exponent) * (std::f64::consts::TAU * n).sqrt();
        let mut extra = extra;
        while factorial >= 10.0 {
            factorial /= 10.0;
            extra += 1;
        }
        (Mantissa { units: (factorial * 1e16).round() as u64 }, extra)
    }

    fn approximate_multifactorial_digits(&self, n: u64, k: u64) -> u64 {
        let n = n as f64;
        let k = k as f64;
        let base = n.log(10.0);
        ((0.5 + n / k) * base - n / k / std::f64::consts::LN_10) as u64 + 1
    }
}

fn comment(body: &str, id: &str) -> RedditComment {
    RedditComment::new(body, id, "test_author", "test_subreddit", &FloatApproximator)
}

const FOOTER: &str =
    "\n*^(This action was performed by a bot. Please DM me if you have any questions.)*";

#[test]
fn test_comment_new() {
    let comment = comment("This is a test comment with a factorial of 5! and 6!", "123");
    assert_eq!(comment.id, "123");
    assert_eq!(
        comment.factorial_list,
        vec![
            Factorial {
                number: 5,
                level: 1,
                factorial: CalculatedFactorial::Exact(120.to_bigint().unwrap()),
            },
            Factorial {
                number: 6,
                level: 1,
                factorial: CalculatedFactorial::Exact(720.to_bigint().unwrap()),
            },
        ],
    );
    assert_eq!(comment.status, vec![Status::FactorialsFound]);
}

#[test]
fn test_comment_new_double_factorial() {
    let comment = comment("This is a test comment with an n-factorial 6!!", "123");
    assert_eq!(
        comment.factorial_list,
        vec![Factorial {
            number: 6,
            level: 2,
            factorial: CalculatedFactorial::Exact(48.to_bigint().unwrap()),
        }]
    );
    assert_eq!(comment.status, vec![Status::FactorialsFound]);
}

#[test]
fn test_comment_new_triple_factorial() {
    let comment = comment("This is a test comment with an n-factorial 6!!!", "123");
    assert_eq!(
        comment.factorial_list,
        vec![Factorial {
            number: 6,
            level: 3,
            factorial: CalculatedFactorial::Exact(18.to_bigint().unwrap()),
        }]
    );
    assert_eq!(comment.status, vec![Status::FactorialsFound]);
}

#[test]
fn test_comment_new_spoiler() {
    let comment = comment(">!This is a spoiler comment 5!<", "123");
    assert_eq!(comment.factorial_list, vec![]);
    assert_eq!(comment.status, vec![Status::NoFactorial]);
}

#[test]
fn test_comment_new_spoiler_html_encoded() {
    let comment = comment("&gt;!This is a spoiler comment 5!&lt;", "123");
    assert_eq!(comment.factorial_list, vec![]);
    assert_eq!(comment.status, vec![Status::NoFactorial]);
}

#[test]
fn test_comment_new_exclamations_one() {
    let comment = comment("This is a test with exclamation mark stuff!!!1!", "123");
    assert_eq!(comment.factorial_list, vec![]);
    assert_eq!(comment.status, vec![Status::NoFactorial]);
}

#[test]
fn test_comment_new_exclamations_eleven() {
    let comment = comment("This is a test with exclamation mark stuff!!!11!", "123");
    assert_eq!(comment.factorial_list, vec![]);
    assert_eq!(comment.status, vec![Status::NoFactorial]);
}

#[test]
fn test_comment_new_decimals() {
    let comment = comment("This is a test comment with decimal number 0.5!", "123");
    assert_eq!(comment.factorial_list, vec![]);
    assert_eq!(comment.status, vec![Status::NoFactorial]);
}

#[test]
fn test_comment_new_comma_decimals() {
    let comment = comment("This is a test comment with decimal number 0,5!", "123");
    assert_eq!(comment.factorial_list, vec![]);
    assert_eq!(comment.status, vec![Status::NoFactorial]);
}

#[test]
fn test_comment_new_big_number_and_normal_number() {
    let comment = comment(
        "This is a test comment with a factorial of 555555555555555555555555555555555! and 6!",
        "123",
    );
    assert_eq!(comment.id, "123");
    assert_eq!(
        comment.factorial_list,
        vec![Factorial {
            number: 6,
            level: 1,
            factorial: CalculatedFactorial::Exact(720.to_bigint().unwrap())
        }]
    );
    assert_eq!(
        comment.status,
        vec![Status::NumberTooBig, Status::FactorialsFound]
    );
}

#[test]
fn test_comment_new_very_big_number() {
    let very_big_number = "9".repeat(10_000) + "!";
    let comment = comment(&very_big_number, "123");
    assert_eq!(comment.id, "123");
    assert_eq!(comment.factorial_list, vec![]);
    assert_eq!(
        comment.status,
        vec![Status::NumberTooBig, Status::NoFactorial]
    );
}

#[test]
fn test_add_status() {
    let mut comment = comment("This is a test comment with a factorial of 5! and 6!", "123");
    comment.add_status(Status::NotReplied);
    assert_eq!(
        comment.status,
        vec![Status::FactorialsFound, Status::NotReplied]
    );
}

#[test]
fn test_reply_text_too_long() {
    let comment = comment(
        "3500! 3501! 3502! 3503! 3504! 3505! 3506! 3507! 3508! 3509! 3510! 3511! 3512! 3513! 3514! 3515! 3516! 3517! 3518! 3519! 3520! 3521! 3522! 3523! 3524! 3525! 3526! 3527! 3528! 3529! 3530! 3531! 3532! 3533! 3534! 3535! 3536! 3537! 3538! 3539! 3540! 3541! 3542! 3543! 3544! 3545! 3546! 3547! 3548! 3549! 3550! 3551! 3552! 3553! 3554! 3555! 3556! 3557! 3558! 3559! 3560! 3561! 3562! 3563! 3564! 3565! 3566! 3567! 3568! 3569! 3570! 3571! 3572! 3573! 3574! 3575! 3576! 3577! 3578! 3579! 3580! 3581! 3582! 3583! 3584! 3585! 3586! 3587! 3588! 3589! 3590! 3591! 3592! 3593! 3594! 3595! 3596! 3597! 3598! 3599! 3600!",
        "123",
    );
    let reply = comment.get_reply();
    assert_eq!(
        reply,
        "Sorry, but the reply text for all those number would be _really_ long, so I'd rather not even try posting lmao\n\n*^(This action was performed by a bot. Please DM me if you have any questions.)*"
    );
}

#[test]
fn test_get_reply_for_multifactorial() {
    let comment = RedditComment {
        id: "123".to_string(),
        factorial_list: vec![Factorial {
            number: 10,
            level: 3,
            factorial: CalculatedFactorial::Exact(280.to_bigint().unwrap()),
        }],
        author: "test_author".to_string(),
        subreddit: "test_subreddit".to_string(),
        status: vec![Status::FactorialsFound],
    };

    let reply = comment.get_reply();
    assert_eq!(reply, "Triple-Factorial of 10 is 280 \n\n\n*^(This action was performed by a bot. Please DM me if you have any questions.)*");
}

#[test]
fn test_get_reply_for_multiple() {
    let comment = RedditComment {
        id: "123".to_string(),
        factorial_list: vec![
            Factorial {
                number: 5,
                level: 1,
                factorial: CalculatedFactorial::Exact(120.to_bigint().unwrap()),
            },
            Factorial {
                number: 6,
                level: 1,
                factorial: CalculatedFactorial::Exact(720.to_bigint().unwrap()),
            },
        ],
        author: "test_author".to_string(),
        subreddit: "test_subreddit".to_string(),
        status: vec![Status::FactorialsFound],
    };

    let reply = comment.get_reply();
    assert_eq!(reply, "Factorial of 5 is 120 \n\nFactorial of 6 is 720 \n\n\n*^(This action was performed by a bot. Please DM me if you have any questions.)*");
}

const NOTE_TOO_LONG: &str = "If I post the whole numbers, the comment would get too long, as reddit only allows up to 10k characters. So I had to turn them into scientific notation.\n\n";

#[test]
fn test_get_reply_too_long_with_multiple_numbers() {
    let comment = RedditComment {
        id: "123".to_string(),
        factorial_list: vec![
            Factorial {
                number: 5,
                level: 2,
                factorial: CalculatedFactorial::Exact(60.to_bigint().unwrap()),
            },
            Factorial {
                number: 6,
                level: 1,
                factorial: CalculatedFactorial::Exact(720.to_bigint().unwrap()),
            },
            Factorial {
                number: 3249,
                level: 1,
                factorial: CalculatedFactorial::Exact(factorial(3249, 1)),
            },
        ],
        author: "test_author".to_string(),
        subreddit: "test_subreddit".to_string(),
        status: vec![Status::FactorialsFound, Status::ReplyWouldBeTooLong],
    };

    let reply = comment.get_reply();
    assert_eq!(reply, format!("{NOTE_TOO_LONG}Double-Factorial of 5 is roughly 6.0e1 \n\nFactorial of 6 is roughly 7.20e2 \n\nFactorial of 3249 is roughly 6.4123376882765521838840963030568127691878727205333658692200854486404915724268122521695176119279253636e10000 \n\n{FOOTER}"));
}

#[test]
fn test_get_reply_too_long_from_new_comment() {
    let comment = comment("This is a test comment with a factorial of 4000!", "1234");

    let reply = comment.get_reply();
    assert_eq!(reply, format!("{NOTE_TOO_LONG}Factorial of 4000 is roughly 1.8288019515140650133147431755739190442173777107304392197064526954208959797973177364850370286870484107e12673 \n\n{FOOTER}"));
}

#[test]
fn test_get_reply_too_long_from_new_comment_for_multifactorial() {
    let comment = comment("This is a test comment with a factorial of 9000!!!", "1234");

    let reply = comment.get_reply();
    assert_eq!(reply, format!("{NOTE_TOO_LONG}Triple-Factorial of 9000 is roughly 9.5883799146548267640341391648545903348878025438772769707015576436531779580675303393957674423348854753e10561 \n\n{FOOTER}"));
}

#[test]
fn test_get_reply_too_long_from_number_3250() {
    let comment = comment("This is a test comment with a factorial of 3250!", "1234");

    let reply = comment.get_reply();
    assert_eq!(reply, format!("{NOTE_TOO_LONG}Factorial of 3250 is roughly 2.0840097486898794597623312984934641499860586341733439074965277708081597610387139819550932238765757432e10004 \n\n{FOOTER}"));
}

#[test]
fn the_same_factorial_is_listed_once() {
    let comment = comment("5! 6!! 5! 6!! 5!! 200000! 200000!", "1");
    let keys: Vec<(u64, u64)> = comment
        .factorial_list
        .iter()
        .map(|f| (f.number, f.level))
        .collect();
    assert_eq!(keys, vec![(5, 1), (5, 2), (6, 2), (200000, 1)]);
    assert_eq!(
        comment.status,
        vec![
            Status::ApproximateFactorial,
            Status::FactorialsFound,
            Status::ReplyWouldBeTooLong
        ]
    );
}

#[test]
fn results_are_listed_by_number_and_level() {
    let comment = comment("9! 3!!! 3! 10! 3!! 0!", "1");
    let keys: Vec<(u64, u64)> = comment
        .factorial_list
        .iter()
        .map(|f| (f.number, f.level))
        .collect();
    assert_eq!(keys, vec![(0, 1), (3, 1), (3, 2), (3, 3), (9, 1), (10, 1)]);
    for pair in comment.factorial_list.windows(2) {
        assert!(pair[0].precedes(&pair[1]));
        assert!(!pair[1].precedes(&pair[0]));
    }
}

#[test]
fn one_is_not_worth_a_reply() {
    let comment = comment("1! 1!! 1!!!", "1");
    assert_eq!(comment.factorial_list, vec![]);
    assert_eq!(comment.status, vec![Status::NoFactorial]);
    assert_eq!(comment.get_reply(), FOOTER);
}

#[test]
fn tiers_set_their_flags_once() {
    let comment = comment(
        "100001! 100002! 100002!! 500000000001! 1000000000000001! 1000000000000002! 7!",
        "1",
    );
    assert_eq!(
        comment.status,
        vec![
            Status::ApproximateFactorial,
            Status::ApproximateDigits,
            Status::NumberTooBig,
            Status::FactorialsFound,
            Status::ReplyWouldBeTooLong,
        ]
    );
    let kinds: Vec<(u64, u64, u8)> = comment
        .factorial_list
        .iter()
        .map(|f| {
            (
                f.number,
                f.level,
                match f.factorial {
                    CalculatedFactorial::Exact(_) => 0,
                    CalculatedFactorial::Approximate(_, _) => 1,
                    CalculatedFactorial::ApproximateDigits(_) => 2,
                },
            )
        })
        .collect();
    assert_eq!(
        kinds,
        vec![
            (7, 1, 0),
            (100001, 1, 0),
            (100002, 1, 1),
            (100002, 2, 2),
            (500000000001, 1, 2)
        ]
    );
}

#[test]
fn approximations_are_brought_below_ten() {
    let comment = comment("200000!", "1");
    assert_eq!(
        comment.status,
        vec![
            Status::ApproximateFactorial,
            Status::FactorialsFound,
            Status::ReplyWouldBeTooLong
        ]
    );
    match &comment.factorial_list[0].factorial {
        CalculatedFactorial::Approximate(mantissa, exponent) => {
            assert!(mantissa.units >= 10_000_000_000_000_000);
            assert!(mantissa.units < 100_000_000_000_000_000);
            assert_eq!(*exponent, 973350);
            assert_eq!(mantissa.units / 100_000_000_000, 142022);
        }
        other => panic!("not an approximation: {other:?}"),
    }
    let reply = comment.get_reply();
    assert!(reply.starts_with(
        "Sorry, that's a little bit much to calculate, so I'll have to approximate.\n\nFactorial of 200000 is approximately 1.42022"
    ));
    assert!(reply.ends_with(&format!("e973350 \n\n{FOOTER}")));
}

#[test]
fn numbers_of_digits_are_reported() {
    let comment = RedditComment {
        id: "1".to_string(),
        factorial_list: vec![
            Factorial {
                number: 5,
                level: 46,
                factorial: CalculatedFactorial::Approximate(Mantissa { units: 25_000_000_000_000_000 }, 8),
            },
            Factorial {
                number: 600000000000,
                level: 1,
                factorial: CalculatedFactorial::ApproximateDigits(6_800_000_000_000),
            },
        ],
        author: "a".to_string(),
        subreddit: "s".to_string(),
        status: vec![Status::ApproximateDigits, Status::ApproximateFactorial, Status::FactorialsFound],
    };
    assert_eq!(
        comment.get_reply(),
        format!("Some of these are so large, that I can't even approximate it well, so I can only give you an approximation on the number of digits.\n\n46-Factorial of 5 is approximately 2.5e8 \n\nFactorial of 600000000000 has approximately 6800000000000 Digits \n\n{FOOTER}")
    );
}

#[test]
fn level_names() {
    assert_eq!(RedditComment::get_factorial_level_string(1), "");
    assert_eq!(RedditComment::get_factorial_level_string(2), "Double-");
    assert_eq!(RedditComment::get_factorial_level_string(45), "Quinquadragintuple-");
    assert_eq!(RedditComment::get_factorial_level_string(46), "46-");
    assert_eq!(RedditComment::get_factorial_level_string(47), "47-");
    assert_eq!(RedditComment::get_factorial_level_string(0), "0-");
    assert_eq!(
        RedditComment::get_factorial_level_string(u64::MAX),
        "18446744073709551615-"
    );
}

fn exact(number: u64, level: u64) -> Factorial {
    Factorial { number, level, factorial: CalculatedFactorial::Exact(0.to_bigint().unwrap()) }
}

#[test]
fn too_long_starts_above_the_limit_of_the_level() {
    assert!(!RedditComment::factorials_are_too_long(&[]));
    assert!(!RedditComment::factorials_are_too_long(&[exact(3249, 1)]));
    assert!(RedditComment::factorials_are_too_long(&[exact(3250, 1)]));
    assert!(!RedditComment::factorials_are_too_long(&[exact(5982, 2)]));
    assert!(RedditComment::factorials_are_too_long(&[exact(5983, 2)]));
    assert!(!RedditComment::factorials_are_too_long(&[exact(100734, 45)]));
    assert!(RedditComment::factorials_are_too_long(&[exact(100735, 45)]));
    assert!(RedditComment::factorials_are_too_long(&[exact(5, 1), exact(9000, 3)]));
}

#[test]
fn no_number_is_too_long_at_a_level_without_a_limit() {
    assert!(!RedditComment::factorials_are_too_long(&[exact(u64::MAX, 46)]));
    assert!(!RedditComment::factorials_are_too_long(&[exact(u64::MAX, 0)]));
    let comment = comment(&format!("100000{}", "!".repeat(46)), "1");
    assert_eq!(comment.status, vec![Status::FactorialsFound]);
}

#[test]
fn a_status_is_set_once() {
    let mut comment = comment("5!", "1");
    comment.add_status(Status::FactorialsFound);
    comment.add_status(Status::AlreadyReplied);
    comment.add_status(Status::AlreadyReplied);
    assert_eq!(comment.status, vec![Status::FactorialsFound, Status::AlreadyReplied]);
    let two = super_big_twice();
    assert_eq!(two.status, vec![Status::NumberTooBig, Status::NoFactorial]);
}

fn super_big_twice() -> RedditComment {
    comment("1000000000000000000000! 2000000000000000000000!", "1")
}

#[test]
fn results_have_an_order() {
    let digits = CalculatedFactorial::ApproximateDigits(u64::MAX);
    let low = CalculatedFactorial::Approximate(Mantissa { units: 99 }, 3);
    let high = CalculatedFactorial::Approximate(Mantissa { units: 5 }, 4);
    let higher = CalculatedFactorial::Approximate(Mantissa { units: 6 }, 4);
    let zero = CalculatedFactorial::Exact(0.to_bigint().unwrap());
    let one = CalculatedFactorial::Exact(1.to_bigint().unwrap());
    let ordered = [digits, low, high, higher, zero, one];
    for i in 0..ordered.len() {
        for j in 0..ordered.len() {
            assert_eq!(ordered[i].precedes(&ordered[j]), i < j);
            assert_eq!(ordered[i].same_as(&ordered[j]), i == j);
        }
    }
}

#[test]
fn negative_values_keep_their_sign_when_shortened() {
    let comment = RedditComment {
        id: "1".to_string(),
        factorial_list: vec![Factorial {
            number: 3,
            level: 1,
            factorial: CalculatedFactorial::Exact((-1250).to_bigint().unwrap()),
        }],
        author: "a".to_string(),
        subreddit: "s".to_string(),
        status: vec![Status::ReplyWouldBeTooLong],
    };
    assert_eq!(
        comment.get_reply(),
        format!("{NOTE_TOO_LONG}Factorial of 3 is roughly -1.250e3 \n\n{FOOTER}")
    );
}

#[test]
fn replies_are_measured_in_bytes() {
    // Each line takes 52 bytes; 190 of them are 9880 bytes and fit, one
    // more makes 9932, above the limit of 9909.
    let line = |k: u64| Factorial {
        number: 100_000 + k,
        level: 46,
        factorial: CalculatedFactorial::ApproximateDigits(1),
    };
    let mut comment = RedditComment {
        id: "1".to_string(),
        factorial_list: (0..319).map(line).collect(),
        author: "a".to_string(),
        subreddit: "s".to_string(),
        status: vec![],
    };
    let text = "46-Factorial of 100000 has approximately 1 Digits \n\n";
    assert_eq!(text.len(), 52);
    comment.factorial_list.truncate(190);
    assert_eq!(comment.get_reply().len(), 190 * 52 + FOOTER.len());
    comment.factorial_list.push(line(500));
    assert_eq!(
        comment.get_reply(),
        format!("Sorry, but the reply text for all those number would be _really_ long, so I'd rather not even try posting lmao\n{FOOTER}")
    );
}

#[test]
fn reply_states_each_factorial_on_a_line() {
    let comment = comment("5! and 6!", "1");
    assert_eq!(comment.status, vec![Status::FactorialsFound]);
    let reply = comment.get_reply();
    assert_eq!(
        reply,
        format!("Factorial of 5 is 120 \n\nFactorial of 6 is 720 \n\n{FOOTER}")
    );
    assert!(reply.contains("5 is 120"));
    assert!(reply.contains("6 is 720"));
}

#[test]
fn too_big_numbers_get_no_line() {
    let comment = comment("5! 1000000000000001! 6!", "1");
    assert_eq!(
        comment.status,
        vec![Status::NumberTooBig, Status::FactorialsFound]
    );
    assert_eq!(
        comment.get_reply(),
        format!("Factorial of 5 is 120 \n\nFactorial of 6 is 720 \n\n{FOOTER}")
    );
}

#[test]
fn shortened_mantissas_keep_a_hundred_decimals() {
    let comment = comment("3250!", "1");
    let reply = comment.get_reply();
    let line = reply.lines().nth(2).unwrap();
    let number = line.strip_prefix("Factorial of 3250 is roughly ").unwrap().trim_end();
    let (mantissa, exponent) = number.split_once('e').unwrap();
    assert_eq!(mantissa.len(), 102);
    assert_eq!(&mantissa[1..2], ".");
    assert_eq!(exponent, (factorial(3250, 1).to_string().len() - 1).to_string());
}

#[test]
fn approximations_are_wanted_once_in_ascending_order() {
    assert_eq!(
        approximations_wanted(
            "600000000000! 5! 100002!! 100002! 100002!! 1000000000000001! 100001! 100002!"
        ),
        vec![(100002, 1), (100002, 2), (600000000000, 1)]
    );
    assert_eq!(approximations_wanted("5! and 6!"), vec![]);
    assert_eq!(approximations_wanted("nothing"), vec![]);
}

#[test]
fn supplied_approximations_are_taken_by_position() {
    let body = "600000000000! 5! 100002!! 100002!";
    let one = 10_000_000_000_000_000;
    let supplied = vec![
        ((Mantissa { units: 123 * one }, 7), 11),
        ((Mantissa { units: 5 * one }, 8), 22),
        ((Mantissa { units: 6 * one }, 9), 33),
    ];
    let comment =
        RedditComment::with_approximations(body, "1", "author", "subreddit", &supplied);
    assert_eq!(comment.id, "1");
    assert_eq!(comment.author, "author");
    assert_eq!(comment.subreddit, "subreddit");
    assert_eq!(
        comment.factorial_list,
        vec![
            Factorial {
                number: 5,
                level: 1,
                factorial: CalculatedFactorial::Exact(120.to_bigint().unwrap()),
            },
            Factorial {
                number: 100002,
                level: 1,
                factorial: CalculatedFactorial::Approximate(Mantissa { units: 123 * one / 100 }, 9),
            },
            Factorial {
                number: 100002,
                level: 2,
                factorial: CalculatedFactorial::ApproximateDigits(22),
            },
            Factorial {
                number: 600000000000,
                level: 1,
                factorial: CalculatedFactorial::ApproximateDigits(33),
            },
        ]
    );
    assert_eq!(
        comment.status,
        vec![
            Status::ApproximateDigits,
            Status::ApproximateFactorial,
            Status::FactorialsFound,
            Status::ReplyWouldBeTooLong
        ]
    );
}

#[test]
fn new_asks_the_approximator_for_what_is_wanted() {
    let body = "600000000000! 5! 100002!! 100002!";
    let asked = comment(body, "1");
    let supplied: Vec<((Mantissa, u64), u64)> = approximations_wanted(body)
        .into_iter()
        .map(|(n, k)| {
            (
                FloatApproximator.approximate_factorial(n),
                FloatApproximator.approximate_multifactorial_digits(n, k),
            )
        })
        .collect();
    let given = RedditComment::with_approximations(body, "1", "test_author", "test_subreddit", &supplied);
    assert_eq!(asked.factorial_list, given.factorial_list);
    assert_eq!(asked.status, given.status);
}

#[test]
fn large_approximations_keep_their_mantissa() {
    let comment = comment("400000000000!", "1");
    match &comment.factorial_list[0].factorial {
        CalculatedFactorial::Approximate(mantissa, exponent) => {
            assert!(mantissa.units >= 10_000_000_000_000_000);
            assert!(mantissa.units < 100_000_000_000_000_000);
            assert_ne!(mantissa.units, 18_446_744_073_709_551);
            assert!(*exponent > 4_000_000_000_000);
        }
        other => panic!("not an approximation: {other:?}"),
    }
}

#[test]
fn the_budget_of_a_reply_can_be_chosen() {
    let comment = comment("5! and 6!", "1");
    let lines = "Factorial of 5 is 120 \n\nFactorial of 6 is 720 \n\n";
    assert_eq!(lines.len(), 48);
    assert_eq!(comment.get_reply_within(48), format!("{lines}{FOOTER}"));
    assert_eq!(
        comment.get_reply_within(47),
        format!("Sorry, but the reply text for all those number would be _really_ long, so I'd rather not even try posting lmao\n{FOOTER}")
    );
    assert_eq!(comment.get_reply_within(9909), comment.get_reply());
}
