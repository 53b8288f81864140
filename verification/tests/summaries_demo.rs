use iaas_core::summaries::NewsArticle;
use iaas_core::summaries::Summary;
use iaas_core::summaries::Tweet;

#[test]
fn test_article_summary() {
    let article = NewsArticle {
        headline: String::from("Rust is awesome"),
        location: String::from("Global"),
        author: String::from("Dev"),
        content: String::from("..."),
    };
    assert_eq!(article.summarize(), "Rust is awesome, by Dev (Global)");
}

#[test]
fn test_tweet_summary() {
    let tweet = Tweet {
        username: String::from("rustlang"),
        content: String::from("Rust 1.75 is out!"),
        reply: false,
        retweet: false,
    };
    assert_eq!(tweet.summarize(), "rustlang: Rust 1.75 is out!");
}
